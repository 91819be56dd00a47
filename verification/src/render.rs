//! Executing a compiled render plan: the deferred half of a render pass.
//!
//! Execution turns a plan and a region into the sequence of paint calls of
//! one frame. A split plan divides its region among its children and runs
//! each child's plan on its sub-region, in declaration order; an overlay
//! runs every child on the full region, in declaration order, so a later
//! child paints over an earlier one; a paint plan emits one call. Painting
//! itself — the backend's `paint(widget, region)` — is the host's: it is
//! assumed total, and a zero-sized region is its no-op.

use vstd::prelude::*;

use crate::cache::{cache_extends, EntryModel, WidgetCache};
use crate::compile::{
    compile, spec_compile, BuildCmd, Compiled, CompiledModel, CompileError, ErrorModel,
    models_of, lemma_models_of_props, lemma_second_pass_reuses,
};
use crate::geometry::Rect;
use crate::identity::{dec_digits, Identity};
use crate::node::Node;
use crate::split::{spec_split, split};

verus! {

broadcast use vstd::std_specs::vec::axiom_vec_index_decreases;

/// One deferred paint: which constructed widget instance goes into which
/// region of the surface.
#[derive(Clone, Copy, PartialEq, Eq, Debug)]
pub struct PaintCall {
    pub instance: u64,
    pub region: Rect,
}

/// A plan the executor can run: every split carries one constraint per
/// child.
pub open spec fn plan_wf(p: CompiledModel) -> bool
    decreases p,
{
    match p {
        CompiledModel::Split { constraints, children, .. } => constraints.len() == children.len()
            && plans_wf(children, 0),
        CompiledModel::Overlay { children } => plans_wf(children, 0),
        CompiledModel::Paint { .. } => true,
    }
}

/// Every plan of `children[i..]` is executable.
pub open spec fn plans_wf(children: Seq<CompiledModel>, i: int) -> bool
    decreases children, children.len() - i,
{
    if i < 0 || i >= children.len() {
        true
    } else {
        plan_wf(children[i]) && plans_wf(children, i + 1)
    }
}

proof fn lemma_plans_wf_index(children: Seq<CompiledModel>, i: int, j: int)
    requires
        plans_wf(children, i),
        0 <= i <= j < children.len(),
    ensures
        plan_wf(children[j]),
    decreases j - i,
{
    if i < j {
        lemma_plans_wf_index(children, i + 1, j);
    }
}

/// The paint calls a plan produces on a region, in order.
pub open spec fn spec_execute(p: CompiledModel, region: Rect) -> Seq<PaintCall>
    decreases p,
{
    match p {
        CompiledModel::Paint { instance } => seq![
            PaintCall { instance: instance as u64, region },
        ],
        CompiledModel::Split { direction, options, constraints, children } => {
            let rects = spec_split(region, direction, constraints, options);
            spec_execute_split(children, 0, rects)
        },
        CompiledModel::Overlay { children } => spec_execute_overlay(children, 0, region),
    }
}

/// The paint calls of split children `children[i..]`, each on its own
/// sub-rectangle.
pub open spec fn spec_execute_split(
    children: Seq<CompiledModel>,
    i: int,
    rects: Seq<Rect>,
) -> Seq<PaintCall>
    decreases children, children.len() - i,
{
    if i < 0 || i >= children.len() {
        Seq::empty()
    } else {
        spec_execute(children[i], rects[i]) + spec_execute_split(children, i + 1, rects)
    }
}

/// The paint calls of overlay children `children[i..]`, every one on the
/// full region.
pub open spec fn spec_execute_overlay(
    children: Seq<CompiledModel>,
    i: int,
    region: Rect,
) -> Seq<PaintCall>
    decreases children, children.len() - i,
{
    if i < 0 || i >= children.len() {
        Seq::empty()
    } else {
        spec_execute(children[i], region) + spec_execute_overlay(children, i + 1, region)
    }
}

/// Run a compiled plan on a region, appending its paint calls to `out`.
#[verifier::loop_isolation(false)]
pub fn execute(plan: &Compiled, region: Rect, out: &mut Vec<PaintCall>)
    requires
        region.wf(),
        plan_wf(crate::compile::compiled_model(*plan)),
    ensures
        final(out)@ == old(out)@ + spec_execute(crate::compile::compiled_model(*plan), region),
    decreases *plan,
{
    let ghost m = crate::compile::compiled_model(*plan);
    match plan {
        Compiled::Paint { instance } => {
            out.push(PaintCall { instance: *instance, region });
            proof {
                assert(final(out)@ =~= old(out)@ + spec_execute(m, region));
            }
        },
        Compiled::Split { direction, options, constraints, children } => {
            let rects = split(region, *direction, constraints, *options);
            let ghost mch = models_of(children@, 0);
            let ghost rectsm = spec_split(region, *direction, constraints@, *options);
            let ghost out0 = out@;
            let ghost mut pacc = Seq::<PaintCall>::empty();
            proof {
                lemma_models_of_props(children@, 0);
                assert(out@ =~= out0 + pacc);
            }
            let mut i: usize = 0;
            while i < children.len()
                invariant
                    i <= children@.len(),
                    out@ == out0 + pacc,
                    spec_execute_split(mch, 0, rectsm) == pacc + spec_execute_split(
                        mch,
                        i as int,
                        rectsm,
                    ),
                decreases children@.len() - i,
            {
                let ghost pacc_before = pacc;
                proof {
                    lemma_plans_wf_index(mch, 0, i as int);
                    assert(mch[i as int] == crate::compile::compiled_model(children@[i as int]));
                    assert(rects@[i as int] == rectsm[i as int]);
                    assert(rects@[i as int].wf());
                }
                execute(&children[i], rects[i], out);
                proof {
                    let step = spec_execute(mch[i as int], rectsm[i as int]);
                    pacc = pacc + step;
                    assert(out@ =~= out0 + pacc);
                    assert(spec_execute_split(mch, i as int, rectsm) == step + spec_execute_split(
                        mch,
                        i as int + 1,
                        rectsm,
                    ));
                    assert(pacc + spec_execute_split(mch, i as int + 1, rectsm) =~= pacc_before + (
                    step + spec_execute_split(mch, i as int + 1, rectsm)));
                }
                i += 1;
            }
            proof {
                assert(spec_execute_split(mch, i as int, rectsm) == Seq::<PaintCall>::empty());
                assert(pacc + Seq::<PaintCall>::empty() =~= pacc);
                assert(spec_execute(m, region) == spec_execute_split(mch, 0, rectsm));
            }
        },
        Compiled::Overlay { children } => {
            let ghost mch = models_of(children@, 0);
            let ghost out0 = out@;
            let ghost mut pacc = Seq::<PaintCall>::empty();
            proof {
                lemma_models_of_props(children@, 0);
                assert(out@ =~= out0 + pacc);
            }
            let mut i: usize = 0;
            while i < children.len()
                invariant
                    i <= children@.len(),
                    out@ == out0 + pacc,
                    spec_execute_overlay(mch, 0, region) == pacc + spec_execute_overlay(
                        mch,
                        i as int,
                        region,
                    ),
                decreases children@.len() - i,
            {
                let ghost pacc_before = pacc;
                proof {
                    lemma_plans_wf_index(mch, 0, i as int);
                    assert(mch[i as int] == crate::compile::compiled_model(children@[i as int]));
                }
                execute(&children[i], region, out);
                proof {
                    let step = spec_execute(mch[i as int], region);
                    pacc = pacc + step;
                    assert(out@ =~= out0 + pacc);
                    assert(spec_execute_overlay(mch, i as int, region) == step
                        + spec_execute_overlay(mch, i as int + 1, region));
                    assert(pacc + spec_execute_overlay(mch, i as int + 1, region) =~= pacc_before
                        + (step + spec_execute_overlay(mch, i as int + 1, region)));
                }
                i += 1;
            }
            proof {
                assert(spec_execute_overlay(mch, i as int, region) == Seq::<PaintCall>::empty());
                assert(pacc + Seq::<PaintCall>::empty() =~= pacc);
                assert(spec_execute(m, region) == spec_execute_overlay(mch, 0, region));
            }
        },
    }
}

/// Plans the compiler produces are executable.
pub proof fn lemma_compile_plan_wf(
    t: Node,
    enclosing: Seq<u8>,
    cache: Seq<EntryModel>,
    n_kinds: int,
    path: Seq<int>,
)
    ensures
        spec_compile(t, enclosing, cache, n_kinds, path) is Ok ==> plan_wf(
            spec_compile(t, enclosing, cache, n_kinds, path)->Ok_0.0,
        ),
    decreases t,
{
    match t.kind {
        crate::node::NodeKind::Row(children) => {
            lemma_compile_forest_plan_wf(children@, 0, enclosing, cache, n_kinds, path);
        },
        crate::node::NodeKind::Column(children) => {
            lemma_compile_forest_plan_wf(children@, 0, enclosing, cache, n_kinds, path);
        },
        crate::node::NodeKind::Overlay(children) => {
            lemma_compile_forest_plan_wf(children@, 0, enclosing, cache, n_kinds, path);
        },
        crate::node::NodeKind::Leaf(_) => {},
        crate::node::NodeKind::InlineBlock(_) => {},
    }
}

proof fn lemma_compile_forest_plan_wf(
    cs: Seq<Node>,
    i: int,
    enclosing: Seq<u8>,
    cache: Seq<EntryModel>,
    n_kinds: int,
    path: Seq<int>,
)
    requires
        0 <= i <= cs.len(),
    ensures
        crate::compile::spec_compile_forest(cs, i, enclosing, cache, n_kinds, path) is Ok ==> ({
            let ps = crate::compile::spec_compile_forest(cs, i, enclosing, cache, n_kinds, path)->Ok_0.0;
            ps.len() == cs.len() - i && plans_wf(ps, 0)
        }),
    decreases cs, cs.len() - i,
{
    if i < cs.len() {
        match spec_compile(cs[i], enclosing, cache, n_kinds, path.push(i)) {
            Result::Err(_) => {},
            Result::Ok((p, b, c1)) => {
                lemma_compile_plan_wf(cs[i], enclosing, cache, n_kinds, path.push(i));
                lemma_compile_forest_plan_wf(cs, i + 1, enclosing, c1, n_kinds, path);
                match crate::compile::spec_compile_forest(cs, i + 1, enclosing, c1, n_kinds, path) {
                    Result::Err(_) => {},
                    Result::Ok((ps, bs, c2)) => {
                        lemma_plans_wf_cons(p, ps);
                    },
                }
            },
        }
    }
}

proof fn lemma_plans_wf_cons(p: CompiledModel, ps: Seq<CompiledModel>)
    requires
        plan_wf(p),
        plans_wf(ps, 0),
    ensures
        plans_wf(seq![p] + ps, 0),
{
    lemma_plans_wf_shift(ps, seq![p] + ps, 0);
}

proof fn lemma_plans_wf_shift(ps: Seq<CompiledModel>, whole: Seq<CompiledModel>, i: int)
    requires
        0 <= i <= ps.len(),
        whole.len() == ps.len() + 1,
        plan_wf(whole[0]),
        forall|j: int| 0 <= j < ps.len() ==> whole[j + 1] == ps[j],
        plans_wf(ps, i),
    ensures
        plans_wf(whole, i + 1),
        i == 0 ==> plans_wf(whole, 0),
    decreases ps.len() - i,
{
    if i < ps.len() {
        lemma_plans_wf_shift(ps, whole, i + 1);
        assert(whole[i + 1] == ps[i]);
    }
    if i == 0 {
        assert(plans_wf(whole, 1));
    }
}

/// What one whole render pass produces: the build commands, the paint
/// calls, and the cache it leaves behind — or the fault that abandoned the
/// pass before anything was painted.
pub open spec fn spec_render(
    t: Node,
    cache: Seq<EntryModel>,
    n_kinds: int,
    region: Rect,
) -> Result<(Seq<BuildCmd>, Seq<PaintCall>, Seq<EntryModel>), ErrorModel> {
    match spec_compile(t, dec_digits(0), cache, n_kinds, Seq::empty()) {
        Result::Ok((pm, bs, c2)) => Result::Ok((bs, spec_execute(pm, region), c2)),
        Result::Err(e) => Result::Err(e),
    }
}

/// One render pass at top level: compile the tree against the registry and
/// the cache, and if the whole tree is well formed, produce the build
/// commands the host must run first and the paint calls of the frame, in
/// order. On a malformed tree: the first fault, and nothing to build or
/// paint — the pass is abandoned before any painting.
pub fn render(tree: &Node, cache: &mut WidgetCache, n_kinds: u32, region: Rect) -> (r: Result<
    (Vec<BuildCmd>, Vec<PaintCall>),
    CompileError,
>)
    requires
        old(cache).wf(),
        region.wf(),
    ensures
        final(cache).wf(),
        cache_extends(old(cache)@, final(cache)@),
        match spec_render(*tree, old(cache)@, n_kinds as int, region) {
            Result::Ok((bs, paints, c2)) => {
                &&& r matches Result::Ok(ok) && ok.0@ == bs && ok.1@ == paints
                &&& final(cache)@ == c2
            },
            Result::Err(em) => r matches Result::Err(e) && crate::compile::error_model(e) == em,
        },
{
    let root = Identity::root();
    match compile(tree, &root, cache, n_kinds) {
        Result::Err(e) => Result::Err(e),
        Result::Ok((plan, builds)) => {
            proof {
                lemma_compile_plan_wf(
                    *tree,
                    dec_digits(0),
                    old(cache)@,
                    n_kinds as int,
                    Seq::empty(),
                );
            }
            let mut paints: Vec<PaintCall> = Vec::new();
            execute(&plan, region, &mut paints);
            proof {
                assert(Seq::<PaintCall>::empty() + spec_execute(
                    crate::compile::compiled_model(plan),
                    region,
                ) =~= spec_execute(crate::compile::compiled_model(plan), region));
            }
            Result::Ok((builds, paints))
        },
    }
}

/// Rendering the same tree twice against the same region is idempotent:
/// the second pass issues no build command, leaves the cache exactly as it
/// was, and paints the same calls — same order, same regions, same
/// instances — as the first.
pub proof fn lemma_render_idempotent(
    t: Node,
    cache: Seq<EntryModel>,
    n_kinds: int,
    region: Rect,
)
    requires
        spec_render(t, cache, n_kinds, region) is Ok,
    ensures
        ({
            let (bs1, paints1, c2) = spec_render(t, cache, n_kinds, region)->Ok_0;
            spec_render(t, c2, n_kinds, region) == Result::Ok::<
                (Seq<BuildCmd>, Seq<PaintCall>, Seq<EntryModel>),
                ErrorModel,
            >((Seq::empty(), paints1, c2))
        }),
{
    lemma_second_pass_reuses(t, dec_digits(0), cache, n_kinds);
}

} // verus!
