//! The renderer compiler: one walk over the node tree per render pass,
//! producing a deferred render plan.
//!
//! Rows and columns compile to a plan node that will split its region among
//! its children; overlays to one that hands every child the full region, in
//! declaration order; leaves (and inline blocks, whose deferred computation
//! the front end has evaluated by now) to a paint of the widget instance the
//! cache holds for their identity — constructed on this pass, and reported
//! as a build command, exactly when the cache had none.
//!
//! Compilation is a pure transform apart from the cache: it either succeeds
//! for the whole tree or reports the first malformed leaf, in traversal
//! order, with the path of child indices that leads to it; nothing is
//! painted either way until the host runs the plan.

use vstd::prelude::*;

use crate::cache::{
    cache_extends, spec_get_or_insert, EntryModel, WidgetCache,
};
use crate::constraint::{Constraint, SplitOptions};
use crate::geometry::Direction;
use crate::identity::{allocate, identity_digits, is_digit_seq, spec_key, Identity};
use crate::node::{forest_ok, tree_ok, LeafData, Node, NodeKind};

verus! {

broadcast use vstd::std_specs::vec::axiom_vec_index_decreases;

/// An order to the host: construct the widget for this instance number from
/// this kind and property bag (and external state, if the leaf had any),
/// before the plan is executed.
#[derive(Clone, Copy, PartialEq, Eq, Debug)]
pub struct BuildCmd {
    pub instance: u64,
    pub kind: u32,
    pub props: u64,
    pub state: Option<u64>,
}

/// A compiled render plan: what remains of a node tree once identities are
/// resolved and widget instances are bound.
pub enum Compiled {
    /// Split the region among the children by their constraints and invoke
    /// each child's plan on its sub-region, in order.
    Split {
        direction: Direction,
        options: SplitOptions,
        constraints: Vec<Constraint>,
        children: Vec<Compiled>,
    },
    /// Invoke every child's plan on the full region, in order.
    Overlay { children: Vec<Compiled> },
    /// Paint the widget instance into the region.
    Paint { instance: u64 },
}

/// What the specification sees of a compiled plan.
pub enum CompiledModel {
    Split {
        direction: Direction,
        options: SplitOptions,
        constraints: Seq<Constraint>,
        children: Seq<CompiledModel>,
    },
    Overlay { children: Seq<CompiledModel> },
    Paint { instance: int },
}

/// The model of a compiled plan.
pub open spec fn compiled_model(c: Compiled) -> CompiledModel
    decreases c,
{
    match c {
        Compiled::Split { direction, options, constraints, children } => CompiledModel::Split {
            direction,
            options,
            constraints: constraints@,
            children: models_of(children@, 0),
        },
        Compiled::Overlay { children } => CompiledModel::Overlay {
            children: models_of(children@, 0),
        },
        Compiled::Paint { instance } => CompiledModel::Paint { instance: instance as int },
    }
}

/// The models of `cs[i..]`.
pub open spec fn models_of(cs: Seq<Compiled>, i: int) -> Seq<CompiledModel>
    decreases cs, cs.len() - i,
{
    if i < 0 || i >= cs.len() {
        Seq::empty()
    } else {
        seq![compiled_model(cs[i])] + models_of(cs, i + 1)
    }
}

pub proof fn lemma_models_of_props(cs: Seq<Compiled>, i: int)
    requires
        0 <= i <= cs.len(),
    ensures
        models_of(cs, i).len() == cs.len() - i,
        forall|j: int|
            0 <= j < cs.len() - i ==> #[trigger] models_of(cs, i)[j] == compiled_model(cs[i + j]),
    decreases cs.len() - i,
{
    if i < cs.len() {
        lemma_models_of_props(cs, i + 1);
    }
}

/// Why a render pass was abandoned before painting: the path of child
/// indices from the root names the offending node.
#[derive(Debug, PartialEq, Eq)]
pub enum CompileError {
    /// A leaf's explicit key cannot be rendered into the identity alphabet.
    InvalidKey { path: Vec<usize> },
    /// A leaf names a widget kind the registry does not have.
    UnknownKind { path: Vec<usize>, kind: u32 },
}

/// What the specification sees of a compile error.
pub enum ErrorModel {
    InvalidKey { path: Seq<int> },
    UnknownKind { path: Seq<int>, kind: int },
}

/// The model of a compile error.
pub open spec fn error_model(e: CompileError) -> ErrorModel {
    match e {
        CompileError::InvalidKey { path } => ErrorModel::InvalidKey { path: path_model(path@) },
        CompileError::UnknownKind { path, kind } => ErrorModel::UnknownKind {
            path: path_model(path@),
            kind: kind as int,
        },
    }
}

/// A path of child indices as the specification sees it.
pub open spec fn path_model(p: Seq<usize>) -> Seq<int> {
    p.map_values(|u: usize| u as int)
}

/// The constraints the children of a composite node present, in order.
pub open spec fn constraints_of(cs: Seq<Node>) -> Seq<Constraint> {
    cs.map_values(|n: Node| n.constraint)
}

/// What compiling one leaf does: reject an unknown kind, then an
/// inexpressible key; otherwise bind the leaf to the cached instance for
/// its identity, constructing (and ordering the host to build) one exactly
/// when the cache had none.
pub open spec fn spec_compile_leaf(
    leaf: LeafData,
    enclosing: Seq<u8>,
    cache: Seq<EntryModel>,
    n_kinds: int,
    path: Seq<int>,
) -> Result<(CompiledModel, Seq<BuildCmd>, Seq<EntryModel>), ErrorModel> {
    if leaf.kind as int >= n_kinds {
        Result::Err(ErrorModel::UnknownKind { path, kind: leaf.kind as int })
    } else if !(match leaf.key {
        Option::Some(k) => is_digit_seq(k@),
        Option::None => true,
    }) {
        Result::Err(ErrorModel::InvalidKey { path })
    } else {
        let id = identity_digits(enclosing, leaf.site as nat, spec_key(leaf.key));
        let (v, fresh, c2) = spec_get_or_insert(cache, leaf.kind as int, id);
        let builds = if fresh {
            seq![
                BuildCmd {
                    instance: v as u64,
                    kind: leaf.kind,
                    props: leaf.props,
                    state: leaf.state,
                },
            ]
        } else {
            Seq::<BuildCmd>::empty()
        };
        Result::Ok((CompiledModel::Paint { instance: v }, builds, c2))
    }
}

/// What compiling a whole tree does: the plan, the build commands in the
/// order the host must run them, and the cache as the pass leaves it — or
/// the first fault in traversal order.
pub open spec fn spec_compile(
    t: Node,
    enclosing: Seq<u8>,
    cache: Seq<EntryModel>,
    n_kinds: int,
    path: Seq<int>,
) -> Result<(CompiledModel, Seq<BuildCmd>, Seq<EntryModel>), ErrorModel>
    decreases t,
{
    match t.kind {
        NodeKind::Row(children) => match spec_compile_forest(
            children@,
            0,
            enclosing,
            cache,
            n_kinds,
            path,
        ) {
            Result::Ok((ps, bs, c2)) => Result::Ok(
                (
                    CompiledModel::Split {
                        direction: Direction::Horizontal,
                        options: t.options,
                        constraints: constraints_of(children@),
                        children: ps,
                    },
                    bs,
                    c2,
                ),
            ),
            Result::Err(e) => Result::Err(e),
        },
        NodeKind::Column(children) => match spec_compile_forest(
            children@,
            0,
            enclosing,
            cache,
            n_kinds,
            path,
        ) {
            Result::Ok((ps, bs, c2)) => Result::Ok(
                (
                    CompiledModel::Split {
                        direction: Direction::Vertical,
                        options: t.options,
                        constraints: constraints_of(children@),
                        children: ps,
                    },
                    bs,
                    c2,
                ),
            ),
            Result::Err(e) => Result::Err(e),
        },
        NodeKind::Overlay(children) => match spec_compile_forest(
            children@,
            0,
            enclosing,
            cache,
            n_kinds,
            path,
        ) {
            Result::Ok((ps, bs, c2)) => Result::Ok(
                (CompiledModel::Overlay { children: ps }, bs, c2),
            ),
            Result::Err(e) => Result::Err(e),
        },
        NodeKind::Leaf(leaf) => spec_compile_leaf(leaf, enclosing, cache, n_kinds, path),
        NodeKind::InlineBlock(leaf) => spec_compile_leaf(leaf, enclosing, cache, n_kinds, path),
    }
}

/// What compiling the children `cs[i..]` does, threading the cache left to
/// right.
pub open spec fn spec_compile_forest(
    cs: Seq<Node>,
    i: int,
    enclosing: Seq<u8>,
    cache: Seq<EntryModel>,
    n_kinds: int,
    path: Seq<int>,
) -> Result<(Seq<CompiledModel>, Seq<BuildCmd>, Seq<EntryModel>), ErrorModel>
    decreases cs, cs.len() - i,
{
    if i < 0 || i >= cs.len() {
        Result::Ok((Seq::empty(), Seq::empty(), cache))
    } else {
        match spec_compile(cs[i], enclosing, cache, n_kinds, path.push(i)) {
            Result::Err(e) => Result::Err(e),
            Result::Ok((p, b, c1)) => match spec_compile_forest(
                cs,
                i + 1,
                enclosing,
                c1,
                n_kinds,
                path,
            ) {
                Result::Err(e) => Result::Err(e),
                Result::Ok((ps, bs, c2)) => Result::Ok((seq![p] + ps, b + bs, c2)),
            },
        }
    }
}

/// A copy of the current path, for an error report.
#[verifier::loop_isolation(false)]
fn copy_path(p: &Vec<usize>) -> (r: Vec<usize>)
    ensures
        r@ == p@,
{
    let mut r: Vec<usize> = Vec::new();
    let mut i: usize = 0;
    while i < p.len()
        invariant
            i <= p@.len(),
            r@ =~= p@.take(i as int),
        decreases p@.len() - i,
    {
        r.push(p[i]);
        proof {
            assert(r@ =~= p@.take(i as int + 1));
        }
        i += 1;
    }
    proof {
        assert(r@ =~= p@);
    }
    r
}

/// Compile one node, threading the cache, the path from the root, and the
/// build commands issued so far.
#[verifier::loop_isolation(false)]
fn compile_node(
    t: &Node,
    enclosing: &Identity,
    cache: &mut WidgetCache,
    n_kinds: u32,
    path: &mut Vec<usize>,
    builds: &mut Vec<BuildCmd>,
) -> (r: Result<Compiled, CompileError>)
    requires
        old(cache).wf(),
    ensures
        final(cache).wf(),
        cache_extends(old(cache)@, final(cache)@),
        final(path)@ == old(path)@,
        match spec_compile(*t, enclosing@, old(cache)@, n_kinds as int, path_model(old(path)@)) {
            Result::Ok((pm, bs, c2)) => {
                &&& r matches Result::Ok(c) && compiled_model(c) == pm
                &&& final(builds)@ == old(builds)@ + bs
                &&& final(cache)@ == c2
            },
            Result::Err(em) => r matches Result::Err(e) && error_model(e) == em,
        },
    decreases *t,
{
    let ghost c0 = cache@;
    let ghost pathm = path_model(path@);
    match &t.kind {
        NodeKind::Leaf(leaf) => compile_leaf(leaf, enclosing, cache, n_kinds, path, builds),
        NodeKind::InlineBlock(leaf) => compile_leaf(leaf, enclosing, cache, n_kinds, path, builds),
        NodeKind::Row(children) => {
            match compile_forest(children, enclosing, cache, n_kinds, path, builds) {
                Result::Err(e) => Result::Err(e),
                Result::Ok((kids, constraints)) => Result::Ok(
                    Compiled::Split {
                        direction: Direction::Horizontal,
                        options: t.options,
                        constraints,
                        children: kids,
                    },
                ),
            }
        },
        NodeKind::Column(children) => {
            match compile_forest(children, enclosing, cache, n_kinds, path, builds) {
                Result::Err(e) => Result::Err(e),
                Result::Ok((kids, constraints)) => Result::Ok(
                    Compiled::Split {
                        direction: Direction::Vertical,
                        options: t.options,
                        constraints,
                        children: kids,
                    },
                ),
            }
        },
        NodeKind::Overlay(children) => {
            match compile_forest(children, enclosing, cache, n_kinds, path, builds) {
                Result::Err(e) => Result::Err(e),
                Result::Ok((kids, _constraints)) => Result::Ok(Compiled::Overlay { children: kids }),
            }
        },
    }
}

/// Compile one leaf: the cache decides whether a widget is constructed.
fn compile_leaf(
    leaf: &LeafData,
    enclosing: &Identity,
    cache: &mut WidgetCache,
    n_kinds: u32,
    path: &Vec<usize>,
    builds: &mut Vec<BuildCmd>,
) -> (r: Result<Compiled, CompileError>)
    requires
        old(cache).wf(),
    ensures
        final(cache).wf(),
        cache_extends(old(cache)@, final(cache)@),
        match spec_compile_leaf(*leaf, enclosing@, old(cache)@, n_kinds as int, path_model(path@)) {
            Result::Ok((pm, bs, c2)) => {
                &&& r matches Result::Ok(c) && compiled_model(c) == pm
                &&& final(builds)@ == old(builds)@ + bs
                &&& final(cache)@ == c2
            },
            Result::Err(em) => r matches Result::Err(e) && error_model(e) == em,
        },
{
    let ghost c0 = cache@;
    if leaf.kind >= n_kinds {
        proof {
            assert(cache_extends(c0, cache@)) by {
                assert(cache@.take(c0.len() as int) =~= c0);
            }
        }
        return Result::Err(CompileError::UnknownKind { path: copy_path(path), kind: leaf.kind });
    }
    match allocate(leaf.site, enclosing, &leaf.key) {
        Option::None => {
            proof {
                assert(cache_extends(c0, cache@)) by {
                    assert(cache@.take(c0.len() as int) =~= c0);
                }
            }
            Result::Err(CompileError::InvalidKey { path: copy_path(path) })
        },
        Option::Some(id) => {
            let ghost idm = id@;
            let (instance, fresh) = cache.get_or_insert(leaf.kind, id);
            if fresh {
                builds.push(
                    BuildCmd { instance, kind: leaf.kind, props: leaf.props, state: leaf.state },
                );
            }
            proof {
                let (v, f, c2) = spec_get_or_insert(c0, leaf.kind as int, idm);
                assert(instance as int == v);
                if fresh {
                    assert(final(builds)@ =~= old(builds)@ + seq![
                        BuildCmd {
                            instance: v as u64,
                            kind: leaf.kind,
                            props: leaf.props,
                            state: leaf.state,
                        },
                    ]);
                    assert(cache@ =~= c0.push(
                        crate::cache::EntryModel {
                            kind: leaf.kind as int,
                            id: idm,
                            instance: c0.len() as int,
                        },
                    ));
                    assert(cache@.take(c0.len() as int) =~= c0);
                } else {
                    assert(final(builds)@ =~= old(builds)@ + Seq::<BuildCmd>::empty());
                    assert(cache@.take(c0.len() as int) =~= c0);
                }
            }
            Result::Ok(Compiled::Paint { instance })
        },
    }
}

/// Compile every child, in declaration order, collecting their plans and
/// the constraints they present.
#[verifier::loop_isolation(false)]
fn compile_forest(
    children: &Vec<Node>,
    enclosing: &Identity,
    cache: &mut WidgetCache,
    n_kinds: u32,
    path: &mut Vec<usize>,
    builds: &mut Vec<BuildCmd>,
) -> (r: Result<(Vec<Compiled>, Vec<Constraint>), CompileError>)
    requires
        old(cache).wf(),
    ensures
        final(cache).wf(),
        cache_extends(old(cache)@, final(cache)@),
        final(path)@ == old(path)@,
        match spec_compile_forest(
            children@,
            0,
            enclosing@,
            old(cache)@,
            n_kinds as int,
            path_model(old(path)@),
        ) {
            Result::Ok((ps, bs, c2)) => {
                &&& r matches Result::Ok(k) && models_of(k.0@, 0) == ps && k.1@ == constraints_of(
                    children@,
                )
                &&& final(builds)@ == old(builds)@ + bs
                &&& final(cache)@ == c2
            },
            Result::Err(em) => r matches Result::Err(e) && error_model(e) == em,
        },
    decreases children@,
{
    let ghost c0 = cache@;
    let ghost b0 = builds@;
    let ghost pathm = path_model(path@);
    let ghost full = spec_compile_forest(children@, 0, enclosing@, c0, n_kinds as int, pathm);
    let ghost mut bacc = Seq::<BuildCmd>::empty();
    proof {
        assert(cache@.take(c0.len() as int) =~= c0);
        assert(builds@ =~= b0 + bacc);
    }
    let mut kids: Vec<Compiled> = Vec::new();
    let mut constraints: Vec<Constraint> = Vec::new();
    let mut i: usize = 0;
    while i < children.len()
        invariant
            i <= children@.len(),
            cache.wf(),
            cache_extends(c0, cache@),
            path@ == old(path)@,
            kids@.len() == i,
            constraints@.len() == i,
            forall|j: int| 0 <= j < i ==> constraints@[j] == children@[j].constraint,
            builds@ == b0 + bacc,
            ({
                let rest = spec_compile_forest(
                    children@,
                    i as int,
                    enclosing@,
                    cache@,
                    n_kinds as int,
                    pathm,
                );
                match rest {
                    Result::Ok((ps, bs, c2)) => full == Result::Ok::<_, ErrorModel>(
                        (models_of(kids@, 0) + ps, bacc + bs, c2),
                    ),
                    Result::Err(em) => full == Result::Err::<
                        (Seq<CompiledModel>, Seq<BuildCmd>, Seq<EntryModel>),
                        _,
                    >(em),
                }
            }),
        decreases children@.len() - i,
    {
        let ghost c_before = cache@;
        let ghost b_before = builds@;
        let ghost kids_before = kids@;
        let ghost bacc_before = bacc;
        path.push(i);
        let ghost pushed = path@;
        proof {
            assert(path_model(pushed) =~= pathm.push(i as int));
        }
        let child_result = compile_node(&children[i], enclosing, cache, n_kinds, path, builds);
        let _ = path.pop();
        proof {
            assert(path@ =~= old(path)@);
            crate::cache::lemma_cache_extends_trans(c0, c_before, cache@);
        }
        let ghost child_spec = spec_compile(
            children@[i as int],
            enclosing@,
            c_before,
            n_kinds as int,
            pathm.push(i as int),
        );
        let ghost rest_before = spec_compile_forest(
            children@,
            i as int,
            enclosing@,
            c_before,
            n_kinds as int,
            pathm,
        );
        match child_result {
            Result::Err(e) => {
                proof {
                    assert(child_spec is Err);
                    assert(rest_before == Result::Err::<
                        (Seq<CompiledModel>, Seq<BuildCmd>, Seq<EntryModel>),
                        _,
                    >(child_spec->Err_0));
                    assert(full == Result::Err::<
                        (Seq<CompiledModel>, Seq<BuildCmd>, Seq<EntryModel>),
                        _,
                    >(error_model(e)));
                }
                return Result::Err(e);
            },
            Result::Ok(c) => {
                kids.push(c);
                constraints.push(children[i].constraint);
                proof {
                    assert(child_spec is Ok);
                    let (p, b, c1) = child_spec->Ok_0;
                    assert(compiled_model(c) == p);
                    assert(c1 == cache@);
                    assert(builds@ == b_before + b);
                    bacc = bacc + b;
                    assert(builds@ =~= b0 + bacc);
                    lemma_models_of_props(kids_before, 0);
                    lemma_models_of_props(kids@, 0);
                    assert(models_of(kids@, 0) =~= models_of(kids_before, 0) + seq![p]) by {
                        assert(kids@ =~= kids_before.push(c));
                        assert forall|j: int| 0 <= j < kids@.len() implies #[trigger] models_of(
                            kids@,
                            0,
                        )[j] == (models_of(kids_before, 0) + seq![p])[j] by {
                            if j < kids_before.len() {
                                assert(kids@[j] == kids_before[j]);
                            } else {
                                assert(kids@[j] == c);
                            }
                        }
                    }
                    let rest_new = spec_compile_forest(
                        children@,
                        i as int + 1,
                        enclosing@,
                        cache@,
                        n_kinds as int,
                        pathm,
                    );
                    match rest_new {
                        Result::Ok((ps, bs, c2)) => {
                            assert(rest_before == Result::Ok::<_, ErrorModel>(
                                (seq![p] + ps, b + bs, c2),
                            ));
                            assert(models_of(kids@, 0) + ps =~= models_of(kids_before, 0) + (
                            seq![p] + ps));
                            assert(bacc + bs =~= bacc_before + (b + bs));
                            assert(full == Result::Ok::<_, ErrorModel>(
                                (models_of(kids@, 0) + ps, bacc + bs, c2),
                            ));
                        },
                        Result::Err(em) => {
                            assert(rest_before == Result::Err::<
                                (Seq<CompiledModel>, Seq<BuildCmd>, Seq<EntryModel>),
                                _,
                            >(em));
                            assert(full == Result::Err::<
                                (Seq<CompiledModel>, Seq<BuildCmd>, Seq<EntryModel>),
                                _,
                            >(em));
                        },
                    }
                }
                i += 1;
            },
        }
    }
    proof {
        let rest = spec_compile_forest(
            children@,
            i as int,
            enclosing@,
            cache@,
            n_kinds as int,
            pathm,
        );
        assert(rest == Result::Ok::<_, ErrorModel>(
            (Seq::<CompiledModel>::empty(), Seq::<BuildCmd>::empty(), cache@),
        ));
        assert(models_of(kids@, 0) + Seq::<CompiledModel>::empty() =~= models_of(kids@, 0));
        assert(bacc + Seq::<BuildCmd>::empty() =~= bacc);
        assert(constraints@ =~= constraints_of(children@));
    }
    Result::Ok((kids, constraints))
}

/// Compile a node tree against the widget-kind registry of `n_kinds` kinds,
/// under the identity of the enclosing reusable-component invocation.
///
/// On success: the deferred render plan, and the build commands the host
/// must run, in order, before executing it; the cache has recorded exactly
/// those constructions. On failure — exactly when some leaf is malformed —
/// the first fault in traversal order, with its path; nothing is built and
/// no plan is produced, though constructions of leaves before the fault
/// stay recorded, as cache entries always do.
pub fn compile(
    tree: &Node,
    enclosing: &Identity,
    cache: &mut WidgetCache,
    n_kinds: u32,
) -> (r: Result<(Compiled, Vec<BuildCmd>), CompileError>)
    requires
        old(cache).wf(),
    ensures
        final(cache).wf(),
        cache_extends(old(cache)@, final(cache)@),
        match spec_compile(
            *tree,
            enclosing@,
            old(cache)@,
            n_kinds as int,
            Seq::<int>::empty(),
        ) {
            Result::Ok((pm, bs, c2)) => {
                &&& r matches Result::Ok(ok) && compiled_model(ok.0) == pm && ok.1@ == bs
                &&& final(cache)@ == c2
            },
            Result::Err(em) => r matches Result::Err(e) && error_model(e) == em,
        },
{
    let mut path: Vec<usize> = Vec::new();
    let mut builds: Vec<BuildCmd> = Vec::new();
    proof {
        assert(path_model(path@) =~= Seq::<int>::empty());
    }
    match compile_node(tree, enclosing, cache, n_kinds, &mut path, &mut builds) {
        Result::Err(e) => Result::Err(e),
        Result::Ok(c) => {
            proof {
                assert(Seq::<BuildCmd>::empty() + spec_compile(
                    *tree,
                    enclosing@,
                    old(cache)@,
                    n_kinds as int,
                    Seq::<int>::empty(),
                )->Ok_0.1 =~= spec_compile(
                    *tree,
                    enclosing@,
                    old(cache)@,
                    n_kinds as int,
                    Seq::<int>::empty(),
                )->Ok_0.1);
            }
            Result::Ok((c, builds))
        },
    }
}

/// Compilation only records into the cache: everything already there stays,
/// under its instance.
pub proof fn lemma_compile_monotone(
    t: Node,
    enclosing: Seq<u8>,
    cache: Seq<EntryModel>,
    n_kinds: int,
    path: Seq<int>,
)
    ensures
        spec_compile(t, enclosing, cache, n_kinds, path) is Ok ==> cache_extends(
            cache,
            spec_compile(t, enclosing, cache, n_kinds, path)->Ok_0.2,
        ),
    decreases t,
{
    match t.kind {
        NodeKind::Row(children) => {
            lemma_forest_monotone(children@, 0, enclosing, cache, n_kinds, path);
        },
        NodeKind::Column(children) => {
            lemma_forest_monotone(children@, 0, enclosing, cache, n_kinds, path);
        },
        NodeKind::Overlay(children) => {
            lemma_forest_monotone(children@, 0, enclosing, cache, n_kinds, path);
        },
        NodeKind::Leaf(leaf) => {
            lemma_leaf_monotone(leaf, enclosing, cache, n_kinds, path);
        },
        NodeKind::InlineBlock(leaf) => {
            lemma_leaf_monotone(leaf, enclosing, cache, n_kinds, path);
        },
    }
}

proof fn lemma_leaf_monotone(
    leaf: LeafData,
    enclosing: Seq<u8>,
    cache: Seq<EntryModel>,
    n_kinds: int,
    path: Seq<int>,
)
    ensures
        spec_compile_leaf(leaf, enclosing, cache, n_kinds, path) is Ok ==> cache_extends(
            cache,
            spec_compile_leaf(leaf, enclosing, cache, n_kinds, path)->Ok_0.2,
        ),
{
    let c2 = spec_compile_leaf(leaf, enclosing, cache, n_kinds, path);
    if c2 is Ok {
        assert(cache.take(cache.len() as int) =~= cache);
        let id = identity_digits(enclosing, leaf.site as nat, spec_key(leaf.key));
        match crate::cache::cache_lookup(cache, leaf.kind as int, id) {
            Option::Some(_) => {},
            Option::None => {
                let e = EntryModel {
                    kind: leaf.kind as int,
                    id,
                    instance: cache.len() as int,
                };
                assert(cache.push(e).take(cache.len() as int) =~= cache);
            },
        }
    }
}

proof fn lemma_forest_monotone(
    cs: Seq<Node>,
    i: int,
    enclosing: Seq<u8>,
    cache: Seq<EntryModel>,
    n_kinds: int,
    path: Seq<int>,
)
    ensures
        spec_compile_forest(cs, i, enclosing, cache, n_kinds, path) is Ok ==> cache_extends(
            cache,
            spec_compile_forest(cs, i, enclosing, cache, n_kinds, path)->Ok_0.2,
        ),
    decreases cs, cs.len() - i,
{
    if i < 0 || i >= cs.len() {
        assert(cache.take(cache.len() as int) =~= cache);
    } else {
        match spec_compile(cs[i], enclosing, cache, n_kinds, path.push(i)) {
            Result::Err(_) => {},
            Result::Ok((p, b, c1)) => {
                lemma_compile_monotone(cs[i], enclosing, cache, n_kinds, path.push(i));
                lemma_forest_monotone(cs, i + 1, enclosing, c1, n_kinds, path);
                match spec_compile_forest(cs, i + 1, enclosing, c1, n_kinds, path) {
                    Result::Err(_) => {},
                    Result::Ok((ps, bs, c2)) => {
                        crate::cache::lemma_cache_extends_trans(cache, c1, c2);
                    },
                }
            },
        }
    }
}

/// Once a pass has recorded a tree's leaves, compiling the tree against any
/// cache that keeps those records — in particular the very cache the pass
/// left behind — constructs nothing, changes nothing, and yields the same
/// plan, instance for instance.
pub proof fn lemma_compile_reuse(
    t: Node,
    enclosing: Seq<u8>,
    cache: Seq<EntryModel>,
    n_kinds: int,
    path: Seq<int>,
    d: Seq<EntryModel>,
)
    requires
        spec_compile(t, enclosing, cache, n_kinds, path) is Ok,
        cache_extends(spec_compile(t, enclosing, cache, n_kinds, path)->Ok_0.2, d),
    ensures
        spec_compile(t, enclosing, d, n_kinds, path) == Result::Ok::<
            (CompiledModel, Seq<BuildCmd>, Seq<EntryModel>),
            ErrorModel,
        >((spec_compile(t, enclosing, cache, n_kinds, path)->Ok_0.0, Seq::empty(), d)),
    decreases t,
{
    match t.kind {
        NodeKind::Row(children) => {
            lemma_forest_reuse(children@, 0, enclosing, cache, n_kinds, path, d);
        },
        NodeKind::Column(children) => {
            lemma_forest_reuse(children@, 0, enclosing, cache, n_kinds, path, d);
        },
        NodeKind::Overlay(children) => {
            lemma_forest_reuse(children@, 0, enclosing, cache, n_kinds, path, d);
        },
        NodeKind::Leaf(leaf) => {
            lemma_leaf_reuse(leaf, enclosing, cache, n_kinds, path, d);
        },
        NodeKind::InlineBlock(leaf) => {
            lemma_leaf_reuse(leaf, enclosing, cache, n_kinds, path, d);
        },
    }
}

proof fn lemma_leaf_reuse(
    leaf: LeafData,
    enclosing: Seq<u8>,
    cache: Seq<EntryModel>,
    n_kinds: int,
    path: Seq<int>,
    d: Seq<EntryModel>,
)
    requires
        spec_compile_leaf(leaf, enclosing, cache, n_kinds, path) is Ok,
        cache_extends(spec_compile_leaf(leaf, enclosing, cache, n_kinds, path)->Ok_0.2, d),
    ensures
        spec_compile_leaf(leaf, enclosing, d, n_kinds, path) == Result::Ok::<
            (CompiledModel, Seq<BuildCmd>, Seq<EntryModel>),
            ErrorModel,
        >((spec_compile_leaf(leaf, enclosing, cache, n_kinds, path)->Ok_0.0, Seq::empty(), d)),
{
    let id = identity_digits(enclosing, leaf.site as nat, spec_key(leaf.key));
    let (v, fresh, c2) = spec_get_or_insert(cache, leaf.kind as int, id);
    match crate::cache::cache_lookup(cache, leaf.kind as int, id) {
        Option::Some(_) => {},
        Option::None => {
            crate::cache::lemma_lookup_after_insert(cache, 0, leaf.kind as int, id);
        },
    }
    assert(crate::cache::cache_lookup(c2, leaf.kind as int, id) == Option::Some(v));
    crate::cache::lemma_lookup_stable(c2, d, 0, leaf.kind as int, id);
}

proof fn lemma_forest_reuse(
    cs: Seq<Node>,
    i: int,
    enclosing: Seq<u8>,
    cache: Seq<EntryModel>,
    n_kinds: int,
    path: Seq<int>,
    d: Seq<EntryModel>,
)
    requires
        spec_compile_forest(cs, i, enclosing, cache, n_kinds, path) is Ok,
        cache_extends(spec_compile_forest(cs, i, enclosing, cache, n_kinds, path)->Ok_0.2, d),
    ensures
        spec_compile_forest(cs, i, enclosing, d, n_kinds, path) == Result::Ok::<
            (Seq<CompiledModel>, Seq<BuildCmd>, Seq<EntryModel>),
            ErrorModel,
        >((spec_compile_forest(cs, i, enclosing, cache, n_kinds, path)->Ok_0.0, Seq::empty(), d)),
    decreases cs, cs.len() - i,
{
    if i < 0 || i >= cs.len() {
    } else {
        let child = spec_compile(cs[i], enclosing, cache, n_kinds, path.push(i));
        let (p1, b1, c1) = child->Ok_0;
        let rest = spec_compile_forest(cs, i + 1, enclosing, c1, n_kinds, path);
        let (ps, bs, c_final) = rest->Ok_0;
        lemma_forest_monotone(cs, i + 1, enclosing, c1, n_kinds, path);
        crate::cache::lemma_cache_extends_trans(c1, c_final, d);
        lemma_compile_reuse(cs[i], enclosing, cache, n_kinds, path.push(i), d);
        lemma_forest_reuse(cs, i + 1, enclosing, c1, n_kinds, path, d);
        assert(Seq::<BuildCmd>::empty() + Seq::<BuildCmd>::empty() =~= Seq::<BuildCmd>::empty());
        assert(spec_compile_forest(cs, i, enclosing, d, n_kinds, path) == Result::Ok::<
            (Seq<CompiledModel>, Seq<BuildCmd>, Seq<EntryModel>),
            ErrorModel,
        >((seq![p1] + ps, Seq::empty(), d)));
    }
}

/// Rendering the same tree on a second pass reuses every cached instance:
/// the compiler issues no build command, the cache is untouched, and the
/// plan — so the sequence of paint calls it will produce — is identical.
pub proof fn lemma_second_pass_reuses(t: Node, enclosing: Seq<u8>, cache: Seq<EntryModel>, n_kinds: int)
    requires
        spec_compile(t, enclosing, cache, n_kinds, Seq::empty()) is Ok,
    ensures
        ({
            let (pm, bs, c2) = spec_compile(t, enclosing, cache, n_kinds, Seq::empty())->Ok_0;
            spec_compile(t, enclosing, c2, n_kinds, Seq::empty()) == Result::Ok::<
                (CompiledModel, Seq<BuildCmd>, Seq<EntryModel>),
                ErrorModel,
            >((pm, Seq::empty(), c2))
        }),
{
    let (pm, bs, c2) = spec_compile(t, enclosing, cache, n_kinds, Seq::<int>::empty())->Ok_0;
    assert(c2.take(c2.len() as int) =~= c2);
    lemma_compile_reuse(t, enclosing, cache, n_kinds, Seq::empty(), c2);
}

/// Compilation succeeds exactly on well-formed trees, whatever the cache
/// holds.
pub proof fn lemma_compile_ok_iff_tree_ok(
    t: Node,
    enclosing: Seq<u8>,
    cache: Seq<EntryModel>,
    n_kinds: int,
    path: Seq<int>,
)
    ensures
        spec_compile(t, enclosing, cache, n_kinds, path) is Ok <==> tree_ok(t, n_kinds),
    decreases t,
{
    match t.kind {
        NodeKind::Row(children) => {
            lemma_forest_ok_iff(children@, 0, enclosing, cache, n_kinds, path);
        },
        NodeKind::Column(children) => {
            lemma_forest_ok_iff(children@, 0, enclosing, cache, n_kinds, path);
        },
        NodeKind::Overlay(children) => {
            lemma_forest_ok_iff(children@, 0, enclosing, cache, n_kinds, path);
        },
        NodeKind::Leaf(leaf) => {},
        NodeKind::InlineBlock(leaf) => {},
    }
}

proof fn lemma_forest_ok_iff(
    cs: Seq<Node>,
    i: int,
    enclosing: Seq<u8>,
    cache: Seq<EntryModel>,
    n_kinds: int,
    path: Seq<int>,
)
    ensures
        spec_compile_forest(cs, i, enclosing, cache, n_kinds, path) is Ok <==> forest_ok(
            cs,
            i,
            n_kinds,
        ),
    decreases cs, cs.len() - i,
{
    if i < 0 || i >= cs.len() {
    } else {
        lemma_compile_ok_iff_tree_ok(cs[i], enclosing, cache, n_kinds, path.push(i));
        match spec_compile(cs[i], enclosing, cache, n_kinds, path.push(i)) {
            Result::Err(_) => {},
            Result::Ok((p, b, c1)) => {
                lemma_forest_ok_iff(cs, i + 1, enclosing, c1, n_kinds, path);
            },
        }
    }
}

} // verus!
