//! The properties the lowering keeps, stated and proved over the same
//! spec functions its contracts use.

use vstd::prelude::*;

verus! {

use crate::hir;
use crate::hir::{Data, Pat, Ty, TypeBinding, TypeExpr};
use crate::intern::ident_str;
use crate::lower::{
    lower_inv, spec_access_index, spec_field_index, spec_inst_type, spec_inst_types, spec_lower,
    spec_make_extractor, spec_make_matcher, spec_extractors, spec_extractors_fields, spec_matchers,
    spec_matchers_fields,
};
use crate::mir::{globals_view, ExtractorV, MatcherV};

broadcast use vstd::seq::group_seq_axioms, vstd::std_specs::vec::group_vec_axioms;

/// Monomorphization uniqueness: in a lowered program that keeps the
/// lowering invariant, the global map holds at most one entry per
/// `(name, concrete type arguments)` identity — two entries with the same
/// identity are the same entry.
pub proof fn lemma_monomorphization_unique(
    prog: hir::Program,
    p: crate::mir::Program,
    i: int,
    j: int,
)
    requires
        lower_inv(prog, p),
        0 <= i < globals_view(p.globals@).len(),
        0 <= j < globals_view(p.globals@).len(),
        globals_view(p.globals@)[i].0 == globals_view(p.globals@)[j].0,
    ensures
        i == j,
{
}

/// Two global references to the same definition name whose type arguments
/// instantiate to the same concrete types lower to the identical global
/// identity, whatever resolvers and call sites they come from.
pub proof fn lemma_global_reference_identity(
    e1: TypeExpr,
    e2: TypeExpr,
    prog: hir::Program,
    res1: Seq<(Seq<char>, crate::mir::RawTypeV)>,
    res2: Seq<(Seq<char>, crate::mir::RawTypeV)>,
)
    requires
        *e1.expr is Global,
        *e2.expr is Global,
        ident_str((*e1.expr)->Global_0) == ident_str((*e2.expr)->Global_0),
        spec_inst_types((*e1.expr)->Global_1@, prog.datas@, res1) == spec_inst_types(
            (*e2.expr)->Global_1@,
            prog.datas@,
            res2,
        ),
    ensures
        *spec_lower(e1, prog, res1).expr == *spec_lower(e2, prog, res2).expr,
{
}

/// Type instantiation is referentially transparent: structurally identical
/// type expressions under identical resolvers instantiate to the identical
/// concrete type. Together with the termination checking of
/// `spec_inst_type` and `instantiate_type`, this is instantiation
/// totality.
pub proof fn lemma_instantiate_type_deterministic(
    t1: Ty,
    t2: Ty,
    datas: Seq<Data>,
    res1: Seq<(Seq<char>, crate::mir::RawTypeV)>,
    res2: Seq<(Seq<char>, crate::mir::RawTypeV)>,
)
    requires
        t1 == t2,
        res1 == res2,
    ensures
        spec_inst_type(t1, datas, res1) == spec_inst_type(t2, datas, res2),
{
}

/// Single-variant elision: a data type with exactly one variant
/// instantiates to a `Boxed` type, never a `Sum`; a constructor
/// application for it lowers to its inner expression unchanged; and a
/// deconstruction pattern for it compiles to exactly the inner pattern's
/// matcher and extractor.
pub proof fn lemma_single_variant_elision(
    t: Ty,
    e: TypeExpr,
    b: TypeBinding,
    prog: hir::Program,
    res: Seq<(Seq<char>, crate::mir::RawTypeV)>,
)
    requires
        t is Data ==> 0 <= t->Data_0 < prog.datas@.len() && prog.datas@[t->Data_0 as int].variants@.len() == 1,
        *e.expr is Constructor ==> 0 <= (*e.expr)->Constructor_0 < prog.datas@.len()
            && prog.datas@[(*e.expr)->Constructor_0 as int].variants@.len() == 1,
        *b.pat is Deconstruct ==> 0 <= (*b.pat)->Deconstruct_0 < prog.datas@.len()
            && prog.datas@[(*b.pat)->Deconstruct_0 as int].variants@.len() == 1,
    ensures
        t is Data ==> spec_inst_type(t, prog.datas@, res) is Boxed,
        *e.expr is Constructor ==> spec_lower(e, prog, res) == spec_lower(
            (*e.expr)->Constructor_2,
            prog,
            res,
        ),
        *b.pat is Deconstruct ==> spec_make_matcher(b, prog.datas@) == spec_make_matcher(
            (*b.pat)->Deconstruct_2,
            prog.datas@,
        ),
        *b.pat is Deconstruct ==> spec_make_extractor(b, prog.datas@) == spec_make_extractor(
            (*b.pat)->Deconstruct_2,
            prog.datas@,
        ),
{
}

/// Multi-variant tag consistency: constructing variant `v` of a data type
/// with more than one variant lowers to a two-slot tuple whose first slot
/// is the numeric literal `v`, the variant's zero-based declaration
/// index; and a deconstruction pattern for variant `v` compiles to a
/// matcher that first requires that same literal before the inner
/// pattern's test, beside an extractor whose first slot discards the tag.
pub proof fn lemma_multi_variant_tag(
    e: TypeExpr,
    b: TypeBinding,
    prog: hir::Program,
    res: Seq<(Seq<char>, crate::mir::RawTypeV)>,
)
    requires
        *e.expr is Constructor ==> 0 <= (*e.expr)->Constructor_0 < prog.datas@.len()
            && prog.datas@[(*e.expr)->Constructor_0 as int].variants@.len() != 1,
        *b.pat is Deconstruct ==> 0 <= (*b.pat)->Deconstruct_0 < prog.datas@.len()
            && prog.datas@[(*b.pat)->Deconstruct_0 as int].variants@.len() != 1,
    ensures
        *e.expr is Constructor ==> {
            let n = spec_lower(e, prog, res);
            &&& *n.expr is Tuple
            &&& (*n.expr)->Tuple_0.len() == 2
            &&& *(*n.expr)->Tuple_0[0].expr == (crate::mir::ExprV::Literal(
                hir::LiteralV::Number((*e.expr)->Constructor_1),
            ))
            &&& (*n.expr)->Tuple_0[1] == spec_lower((*e.expr)->Constructor_2, prog, res)
        },
        *b.pat is Deconstruct ==> spec_make_matcher(b, prog.datas@) == (MatcherV::Product(
            seq![
                MatcherV::Exactly(hir::LiteralV::Number((*b.pat)->Deconstruct_1)),
                spec_make_matcher((*b.pat)->Deconstruct_2, prog.datas@),
            ],
        )),
        *b.pat is Deconstruct ==> spec_make_extractor(b, prog.datas@) == (ExtractorV::Product(
            None,
            seq![
                ExtractorV::Just(None),
                spec_make_extractor((*b.pat)->Deconstruct_2, prog.datas@),
            ],
        )),
{
}

/// Memoization: requesting an identity the map already holds is served
/// at once and changes nothing — the spec driver the executable
/// instantiator is proved equal to maps a contained key to the map
/// unchanged, so the body is never re-instantiated and no second copy can
/// arise.
pub proof fn lemma_memoization(
    prog: hir::Program,
    name: Seq<char>,
    args: Seq<crate::mir::RawTypeV>,
    fuel: nat,
    gs: Seq<(crate::mir::DefIdV, Option<crate::mir::NodeV>)>,
)
    requires
        crate::lower::gmap_contains(gs, crate::mir::DefIdV { name, args }),
    ensures
        crate::lower::sd_def(prog, name, args, fuel, gs) == Some(gs),
{
}

/// Placeholder lifecycle: a fresh identity that instantiates successfully
/// ends as a completed entry at the position its in-progress placeholder
/// was inserted, holding exactly the lowering of its definition's body —
/// absent, then in progress, then complete, never backwards.
pub proof fn lemma_placeholder_completes(
    prog: hir::Program,
    name: Seq<char>,
    args: Seq<crate::mir::RawTypeV>,
    fuel: nat,
    gs: Seq<(crate::mir::DefIdV, Option<crate::mir::NodeV>)>,
)
    requires
        !crate::lower::gmap_contains(gs, crate::mir::DefIdV { name, args }),
        crate::lower::sd_def(prog, name, args, fuel, gs) is Some,
    ensures
        ({
            let gs2 = crate::lower::sd_def(prog, name, args, fuel, gs).unwrap();
            let key = crate::mir::DefIdV { name, args };
            let def = hir::spec_def_lookup(prog.defs@, name).unwrap();
            &&& hir::spec_def_lookup(prog.defs@, name) is Some
            &&& gs.len() < gs2.len()
            &&& gs2[gs.len() as int] == (
                key,
                Some(
                    spec_lower(
                        def.body,
                        prog,
                        crate::lower::spec_resolver_of(def.generics@, args),
                    ),
                ),
            )
        }),
{
    let key = crate::mir::DefIdV { name, args };
    let gs1 = gs.push((key, None));
    let def = hir::spec_def_lookup(prog.defs@, name).unwrap();
    let res = crate::lower::spec_resolver_of(def.generics@, args);
    crate::lower::lemma_sd_expr_closed(def.body, prog, res, (fuel - 1) as nat, gs1);
}

/// Structural correspondence of a matcher and an extractor: the same
/// constructor at each node with the same arity, a leaf test standing
/// against a leaf capture.
pub open spec fn aligned(m: MatcherV, x: ExtractorV) -> bool
    decreases m,
{
    match m {
        MatcherV::Wildcard => x is Just,
        MatcherV::Exactly(_) => x is Just,
        MatcherV::Product(ms) => x is Product && aligned_list(ms, x->Product_1),
        MatcherV::List(ms) => x is List && aligned_list(ms, x->List_1),
        MatcherV::ListFront(ms) => x is ListFront && aligned_list(ms, x->ListFront_1),
    }
}

pub open spec fn aligned_list(ms: Seq<MatcherV>, xs: Seq<ExtractorV>) -> bool
    decreases ms,
{
    if ms.len() != xs.len() {
        false
    } else if ms.len() == 0 {
        true
    } else {
        aligned_list(ms.drop_last(), xs.drop_last()) && aligned(ms.last(), xs.last())
    }
}

/// Extractor/matcher shape alignment: for every pattern, the compiled
/// matcher and extractor trees correspond node for node, the
/// constructor-tag wrapper of a multi-variant deconstruction included.
pub proof fn lemma_shape_alignment(b: TypeBinding, datas: Seq<Data>)
    ensures
        aligned(spec_make_matcher(b, datas), spec_make_extractor(b, datas)),
    decreases b,
{
    match *b.pat {
        Pat::Wildcard => (),
        Pat::Literal(_) => (),
        Pat::Tuple(items) => lemma_shape_alignment_list(items@, datas),
        Pat::Record(fields) => lemma_shape_alignment_fields(fields@, datas),
        Pat::List(items) => lemma_shape_alignment_list(items@, datas),
        Pat::ListFront(items, _) => lemma_shape_alignment_list(items@, datas),
        Pat::Deconstruct(d, v, inner) => {
            lemma_shape_alignment(inner, datas);
            if datas[d as int].variants@.len() != 1 {
                let ms = seq![
                    MatcherV::Exactly(hir::LiteralV::Number(v)),
                    spec_make_matcher(inner, datas),
                ];
                let xs = seq![
                    ExtractorV::Just(None),
                    spec_make_extractor(inner, datas),
                ];
                assert(ms.drop_last().drop_last() =~= Seq::<MatcherV>::empty());
                assert(xs.drop_last().drop_last() =~= Seq::<ExtractorV>::empty());
                assert(ms.drop_last().last() == ms[0]);
                assert(xs.drop_last().last() == xs[0]);
                assert(aligned_list(ms.drop_last().drop_last(), xs.drop_last().drop_last()));
                assert(aligned(ms[0], xs[0]));
                assert(aligned_list(ms.drop_last(), xs.drop_last()));
                assert(aligned_list(ms, xs));
            }
        },
    }
}

proof fn lemma_shape_alignment_list(bs: Seq<TypeBinding>, datas: Seq<Data>)
    ensures
        aligned_list(spec_matchers(bs, datas), spec_extractors(bs, datas)),
        spec_matchers(bs, datas).len() == bs.len(),
        spec_extractors(bs, datas).len() == bs.len(),
    decreases bs,
{
    if bs.len() > 0 {
        lemma_shape_alignment_list(bs.drop_last(), datas);
        lemma_shape_alignment(bs.last(), datas);
        let ms = spec_matchers(bs, datas);
        let xs = spec_extractors(bs, datas);
        assert(ms.drop_last() =~= spec_matchers(bs.drop_last(), datas));
        assert(xs.drop_last() =~= spec_extractors(bs.drop_last(), datas));
    }
}

proof fn lemma_shape_alignment_fields(fs: Seq<(crate::intern::Ident, TypeBinding)>, datas: Seq<Data>)
    ensures
        aligned_list(spec_matchers_fields(fs, datas), spec_extractors_fields(fs, datas)),
        spec_matchers_fields(fs, datas).len() == fs.len(),
        spec_extractors_fields(fs, datas).len() == fs.len(),
    decreases fs,
{
    if fs.len() > 0 {
        lemma_shape_alignment_fields(fs.drop_last(), datas);
        lemma_shape_alignment(fs.last().1, datas);
        let ms = spec_matchers_fields(fs, datas);
        let xs = spec_extractors_fields(fs, datas);
        assert(ms.drop_last() =~= spec_matchers_fields(fs.drop_last(), datas));
        assert(xs.drop_last() =~= spec_extractors_fields(fs.drop_last(), datas));
    }
}

/// Field index stability: the index a field access or update lowers to is
/// the position of that field name in the record's declared field order —
/// the first position carrying the name, with no earlier field carrying
/// it.
pub proof fn lemma_field_index_stability(t: Ty, field: Seq<char>, datas: Seq<Data>)
    requires
        hir::spec_record_fields(t, datas) is Some,
        hir::has_field(hir::spec_record_fields(t, datas).unwrap(), field),
    ensures
        ({
            let fs = hir::spec_record_fields(t, datas).unwrap();
            let idx = spec_access_index(t, field, datas);
            &&& idx == spec_field_index(fs, field)
            &&& 0 <= idx < fs.len()
            &&& ident_str(fs[idx].0) == field
            &&& forall|j: int| 0 <= j < idx ==> ident_str((#[trigger] fs[j]).0) != field
        }),
{
    crate::lower::lemma_field_index(hir::spec_record_fields(t, datas).unwrap(), field);
}

use crate::lower::{
    spec_binding_idents, spec_get_env_arms, spec_get_env_fields, spec_get_env_inner,
    spec_get_env_list, spec_push_free,
};

/// An expression references no local name outside `bound`: every `Local`
/// it reaches by value is shadowed by `bound`, a field update's target
/// name, a closure parameter, or a match arm's pattern.
pub open spec fn no_free_locals(e: TypeExpr, bound: Seq<Seq<char>>) -> bool
    decreases e,
{
    match *e.expr {
        hir::Expr::Literal(_) => true,
        hir::Expr::Global(_, _) => true,
        hir::Expr::Local(x) => bound.contains(ident_str(x)),
        hir::Expr::Intrinsic(_, args) => no_free_locals_list(args@, bound),
        hir::Expr::Unary(_, a) => no_free_locals(a, bound),
        hir::Expr::Binary(_, a, b) => no_free_locals(a, bound) && no_free_locals(b, bound),
        hir::Expr::Tuple(items) => no_free_locals_list(items@, bound),
        hir::Expr::Record(fields) => no_free_locals_fields(fields@, bound),
        hir::Expr::List(items) => no_free_locals_list(items@, bound),
        hir::Expr::Apply(f, arg) => no_free_locals(f, bound) && no_free_locals(arg, bound),
        hir::Expr::Access(record, _) => no_free_locals(record, bound),
        hir::Expr::Update(record, field, value) => no_free_locals(record, bound)
            && no_free_locals(value, bound.push(ident_str(field))),
        hir::Expr::Func(binding, body) => no_free_locals(
            body,
            bound + spec_binding_idents(binding),
        ),
        hir::Expr::Match(pred, arms) => no_free_locals(pred, bound) && no_free_locals_arms(
            arms@,
            bound,
        ),
        hir::Expr::Constructor(_, _, inner) => no_free_locals(inner, bound),
    }
}

pub open spec fn no_free_locals_list(es: Seq<TypeExpr>, bound: Seq<Seq<char>>) -> bool
    decreases es,
{
    if es.len() == 0 {
        true
    } else {
        no_free_locals_list(es.drop_last(), bound) && no_free_locals(es.last(), bound)
    }
}

pub open spec fn no_free_locals_fields(
    fs: Seq<(crate::intern::Ident, TypeExpr)>,
    bound: Seq<Seq<char>>,
) -> bool
    decreases fs,
{
    if fs.len() == 0 {
        true
    } else {
        no_free_locals_fields(fs.drop_last(), bound) && no_free_locals(fs.last().1, bound)
    }
}

pub open spec fn no_free_locals_arms(
    arms: Seq<(TypeBinding, TypeExpr)>,
    bound: Seq<Seq<char>>,
) -> bool
    decreases arms,
{
    if arms.len() == 0 {
        true
    } else {
        no_free_locals_arms(arms.drop_last(), bound) && no_free_locals(
            arms.last().1,
            bound + spec_binding_idents(arms.last().0),
        )
    }
}

/// Every name the analyzer records comes from the running environment or
/// is one `bound` allows and the scope stack does not shadow.
proof fn lemma_env_bound(e: TypeExpr, scope: Seq<Seq<char>>, env: Seq<Seq<char>>, bound: Seq<Seq<char>>)
    requires
        no_free_locals(e, bound),
    ensures
        forall|n: Seq<char>|
            #[trigger] spec_get_env_inner(e, scope, env).contains(n) ==> env.contains(n) || (
            bound.contains(n) && !scope.contains(n)),
    decreases e, 0int,
{
    broadcast use vstd::seq_lib::lemma_seq_contains_after_push,
        vstd::seq_lib::lemma_seq_concat_contains_all_elements;

    let goal = spec_get_env_inner(e, scope, env);
    match *e.expr {
        hir::Expr::Literal(_) => (),
        hir::Expr::Global(_, _) => (),
        hir::Expr::Local(_) => (),
        hir::Expr::Intrinsic(_, args) => {
            lemma_env_bound_list(args@, scope, env, bound);
            assert(goal == spec_get_env_list(args@, scope, env));
        },
        hir::Expr::Unary(_, a) => {
            lemma_env_bound(a, scope, env, bound);
            assert(goal == spec_get_env_inner(a, scope, env));
        },
        hir::Expr::Binary(_, a, b) => {
            let mid = spec_get_env_inner(a, scope, env);
            lemma_env_bound(a, scope, env, bound);
            lemma_env_bound(b, scope, mid, bound);
            assert(goal == spec_get_env_inner(b, scope, mid));
        },
        hir::Expr::Tuple(items) => {
            lemma_env_bound_list(items@, scope, env, bound);
            assert(goal == spec_get_env_list(items@, scope, env));
        },
        hir::Expr::Record(fields) => {
            lemma_env_bound_fields(fields@, scope, env, bound);
            assert(goal == spec_get_env_fields(fields@, scope, env));
        },
        hir::Expr::List(items) => {
            lemma_env_bound_list(items@, scope, env, bound);
            assert(goal == spec_get_env_list(items@, scope, env));
        },
        hir::Expr::Apply(f, arg) => {
            let mid = spec_get_env_inner(f, scope, env);
            lemma_env_bound(f, scope, env, bound);
            lemma_env_bound(arg, scope, mid, bound);
            assert(goal == spec_get_env_inner(arg, scope, mid));
        },
        hir::Expr::Access(record, _) => {
            lemma_env_bound(record, scope, env, bound);
            assert(goal == spec_get_env_inner(record, scope, env));
        },
        hir::Expr::Update(record, field, value) => {
            let scope1 = scope.push(ident_str(field));
            let bound1 = bound.push(ident_str(field));
            let mid = spec_get_env_inner(record, scope, env);
            lemma_env_bound(record, scope, env, bound);
            lemma_env_bound(value, scope1, mid, bound1);
            assert(goal == spec_get_env_inner(value, scope1, mid));
            assert forall|n: Seq<char>| #[trigger] goal.contains(n) implies env.contains(n) || (
            bound.contains(n) && !scope.contains(n)) by {
                if !env.contains(n) && !mid.contains(n) {
                    assert(bound1.contains(n) && !scope1.contains(n));
                    assert(n != ident_str(field));
                    assert(bound.contains(n));
                    assert(!scope.contains(n));
                } else if !env.contains(n) {
                    assert(mid.contains(n));
                    assert(bound.contains(n) && !scope.contains(n));
                }
            }
        },
        hir::Expr::Func(binding, body) => {
            let bs = spec_binding_idents(binding);
            let body_env = spec_get_env_inner(body, Seq::empty(), Seq::empty());
            lemma_env_bound(body, Seq::empty(), Seq::empty(), bound + bs);
            assert forall|n: Seq<char>| #[trigger] body_env.contains(n) implies (bound
                + bs).contains(n) by {
                assert(!Seq::<Seq<char>>::empty().contains(n));
            }
            lemma_push_free_bound(body_env, scope, bs, env, bound);
            assert(goal == spec_push_free(body_env, scope, bs, env));
        },
        hir::Expr::Match(pred, arms) => {
            let mid = spec_get_env_inner(pred, scope, env);
            lemma_env_bound(pred, scope, env, bound);
            lemma_env_bound_arms(arms@, scope, mid, bound);
            assert(goal == spec_get_env_arms(arms@, scope, mid));
        },
        hir::Expr::Constructor(_, _, inner) => {
            lemma_env_bound(inner, scope, env, bound);
            assert(goal == spec_get_env_inner(inner, scope, env));
        },
    }
}

proof fn lemma_env_bound_list(
    es: Seq<TypeExpr>,
    scope: Seq<Seq<char>>,
    env: Seq<Seq<char>>,
    bound: Seq<Seq<char>>,
)
    requires
        no_free_locals_list(es, bound),
    ensures
        forall|n: Seq<char>|
            #[trigger] spec_get_env_list(es, scope, env).contains(n) ==> env.contains(n) || (
            bound.contains(n) && !scope.contains(n)),
    decreases es, 1int,
{
    if es.len() > 0 {
        let mid = spec_get_env_list(es.drop_last(), scope, env);
        lemma_env_bound_list(es.drop_last(), scope, env, bound);
        lemma_env_bound(es.last(), scope, mid, bound);
        assert forall|n: Seq<char>|
            #[trigger] spec_get_env_list(es, scope, env).contains(n) implies env.contains(n) || (
        bound.contains(n) && !scope.contains(n)) by {
            assert(spec_get_env_list(es, scope, env) == spec_get_env_inner(es.last(), scope, mid));
            assert(spec_get_env_inner(es.last(), scope, mid).contains(n));
        }
    }
}

proof fn lemma_env_bound_fields(
    fs: Seq<(crate::intern::Ident, TypeExpr)>,
    scope: Seq<Seq<char>>,
    env: Seq<Seq<char>>,
    bound: Seq<Seq<char>>,
)
    requires
        no_free_locals_fields(fs, bound),
    ensures
        forall|n: Seq<char>|
            #[trigger] spec_get_env_fields(fs, scope, env).contains(n) ==> env.contains(n) || (
            bound.contains(n) && !scope.contains(n)),
    decreases fs, 1int,
{
    if fs.len() > 0 {
        let mid = spec_get_env_fields(fs.drop_last(), scope, env);
        lemma_env_bound_fields(fs.drop_last(), scope, env, bound);
        lemma_env_bound(fs.last().1, scope, mid, bound);
        assert forall|n: Seq<char>|
            #[trigger] spec_get_env_fields(fs, scope, env).contains(n) implies env.contains(n) || (
        bound.contains(n) && !scope.contains(n)) by {
            assert(spec_get_env_fields(fs, scope, env) == spec_get_env_inner(
                fs.last().1,
                scope,
                mid,
            ));
            assert(spec_get_env_inner(fs.last().1, scope, mid).contains(n));
        }
    }
}

proof fn lemma_env_bound_arms(
    arms: Seq<(TypeBinding, TypeExpr)>,
    scope: Seq<Seq<char>>,
    env: Seq<Seq<char>>,
    bound: Seq<Seq<char>>,
)
    requires
        no_free_locals_arms(arms, bound),
    ensures
        forall|n: Seq<char>|
            #[trigger] spec_get_env_arms(arms, scope, env).contains(n) ==> env.contains(n) || (
            bound.contains(n) && !scope.contains(n)),
    decreases arms, 1int,
{
    broadcast use vstd::seq_lib::lemma_seq_concat_contains_all_elements;

    if arms.len() > 0 {
        let mid = spec_get_env_arms(arms.drop_last(), scope, env);
        let bs = spec_binding_idents(arms.last().0);
        lemma_env_bound_arms(arms.drop_last(), scope, env, bound);
        lemma_env_bound(arms.last().1, scope + bs, mid, bound + bs);
        assert forall|n: Seq<char>|
            #[trigger] spec_get_env_arms(arms, scope, env).contains(n) implies env.contains(n) || (
        bound.contains(n) && !scope.contains(n)) by {
            assert(spec_get_env_arms(arms, scope, env) == spec_get_env_inner(
                arms.last().1,
                scope + bs,
                mid,
            ));
            assert(spec_get_env_inner(arms.last().1, scope + bs, mid).contains(n));
            if !mid.contains(n) {
                assert((bound + bs).contains(n) && !(scope + bs).contains(n));
                assert(!bs.contains(n));
                assert(bound.contains(n));
                assert(!scope.contains(n));
            }
        }
    }
}

/// What the closure boundary pushes is drawn from `names`, never shadowed
/// by the scope, never one of the closure's own bindings.
proof fn lemma_push_free_bound(
    names: Seq<Seq<char>>,
    scope: Seq<Seq<char>>,
    bs: Seq<Seq<char>>,
    env: Seq<Seq<char>>,
    bound: Seq<Seq<char>>,
)
    requires
        forall|n: Seq<char>| #[trigger] names.contains(n) ==> (bound + bs).contains(n),
    ensures
        forall|n: Seq<char>|
            #[trigger] spec_push_free(names, scope, bs, env).contains(n) ==> env.contains(n) || (
            bound.contains(n) && !scope.contains(n)),
    decreases names,
{
    broadcast use vstd::seq_lib::lemma_seq_contains_after_push,
        vstd::seq_lib::lemma_seq_concat_contains_all_elements;

    if names.len() > 0 {
        let prev = spec_push_free(names.drop_last(), scope, bs, env);
        let last = names.last();
        assert(names[names.len() - 1] == last);
        assert(names.contains(last));
        assert forall|n: Seq<char>|
            #[trigger] names.drop_last().contains(n) implies names.contains(n) by {
            let i = choose|i: int|
                0 <= i < names.drop_last().len() && names.drop_last()[i] == n;
            assert(names[i] == n);
        }
        lemma_push_free_bound(names.drop_last(), scope, bs, env, bound);
        assert forall|n: Seq<char>|
            #[trigger] spec_push_free(names, scope, bs, env).contains(n) implies env.contains(n)
            || (bound.contains(n) && !scope.contains(n)) by {
            if !scope.contains(last) && !bs.contains(last) && !prev.contains(last) {
                assert(spec_push_free(names, scope, bs, env) == prev.push(last));
                assert(prev.push(last).contains(n));
                if n == last {
                    assert((bound + bs).contains(last));
                    assert(bound.contains(last));
                } else {
                    assert(prev.contains(n));
                }
            } else {
                assert(spec_push_free(names, scope, bs, env) == prev);
                assert(prev.contains(n));
            }
        }
    }
}

/// The closure boundary pushes nothing when every candidate name is
/// shadowed by the scope or bound by the closure itself.
proof fn lemma_push_free_noop(
    names: Seq<Seq<char>>,
    scope: Seq<Seq<char>>,
    bs: Seq<Seq<char>>,
    env: Seq<Seq<char>>,
)
    requires
        forall|n: Seq<char>|
            #[trigger] names.contains(n) ==> scope.contains(n) || bs.contains(n),
    ensures
        spec_push_free(names, scope, bs, env) == env,
    decreases names,
{
    if names.len() > 0 {
        let last = names.last();
        assert(names[names.len() - 1] == last);
        assert(names.contains(last));
        assert forall|n: Seq<char>|
            #[trigger] names.drop_last().contains(n) implies names.contains(n) by {
            let i = choose|i: int|
                0 <= i < names.drop_last().len() && names.drop_last()[i] == n;
            assert(names[i] == n);
        }
        lemma_push_free_noop(names.drop_last(), scope, bs, env);
        assert(scope.contains(last) || bs.contains(last));
        assert(spec_push_free(names, scope, bs, env) == env);
    }
}

/// Free-variable minimality: an expression whose local references are all
/// bound by the scope stack contributes nothing to the environment — in
/// particular, a closed expression's computed capture list is empty.
pub proof fn lemma_free_variable_minimality(
    e: TypeExpr,
    scope: Seq<Seq<char>>,
    env: Seq<Seq<char>>,
)
    requires
        no_free_locals(e, scope),
    ensures
        spec_get_env_inner(e, scope, env) == env,
    decreases e, 0int,
{
    broadcast use vstd::seq_lib::lemma_seq_contains_after_push,
        vstd::seq_lib::lemma_seq_concat_contains_all_elements;

    match *e.expr {
        hir::Expr::Literal(_) => (),
        hir::Expr::Global(_, _) => (),
        hir::Expr::Local(_) => (),
        hir::Expr::Intrinsic(_, args) => lemma_free_variable_minimality_list(args@, scope, env),
        hir::Expr::Unary(_, a) => lemma_free_variable_minimality(a, scope, env),
        hir::Expr::Binary(_, a, b) => {
            lemma_free_variable_minimality(a, scope, env);
            lemma_free_variable_minimality(b, scope, env);
        },
        hir::Expr::Tuple(items) => lemma_free_variable_minimality_list(items@, scope, env),
        hir::Expr::Record(fields) => lemma_free_variable_minimality_fields(fields@, scope, env),
        hir::Expr::List(items) => lemma_free_variable_minimality_list(items@, scope, env),
        hir::Expr::Apply(f, arg) => {
            lemma_free_variable_minimality(f, scope, env);
            lemma_free_variable_minimality(arg, scope, env);
        },
        hir::Expr::Access(record, _) => lemma_free_variable_minimality(record, scope, env),
        hir::Expr::Update(record, field, value) => {
            let scope1 = scope.push(ident_str(field));
            lemma_free_variable_minimality(record, scope, env);
            lemma_free_variable_minimality(value, scope1, env);
        },
        hir::Expr::Func(binding, body) => {
            let bs = spec_binding_idents(binding);
            let body_env = spec_get_env_inner(body, Seq::empty(), Seq::empty());
            lemma_env_bound(body, Seq::empty(), Seq::empty(), scope + bs);
            assert(forall|n: Seq<char>|
                #[trigger] body_env.contains(n) ==> scope.contains(n) || bs.contains(n));
            lemma_push_free_noop(body_env, scope, bs, env);
        },
        hir::Expr::Match(pred, arms) => {
            lemma_free_variable_minimality(pred, scope, env);
            lemma_free_variable_minimality_arms(arms@, scope, env);
        },
        hir::Expr::Constructor(_, _, inner) => lemma_free_variable_minimality(inner, scope, env),
    }
}

proof fn lemma_free_variable_minimality_list(
    es: Seq<TypeExpr>,
    scope: Seq<Seq<char>>,
    env: Seq<Seq<char>>,
)
    requires
        no_free_locals_list(es, scope),
    ensures
        spec_get_env_list(es, scope, env) == env,
    decreases es, 1int,
{
    if es.len() > 0 {
        lemma_free_variable_minimality_list(es.drop_last(), scope, env);
        lemma_free_variable_minimality(es.last(), scope, env);
    }
}

proof fn lemma_free_variable_minimality_fields(
    fs: Seq<(crate::intern::Ident, TypeExpr)>,
    scope: Seq<Seq<char>>,
    env: Seq<Seq<char>>,
)
    requires
        no_free_locals_fields(fs, scope),
    ensures
        spec_get_env_fields(fs, scope, env) == env,
    decreases fs, 1int,
{
    if fs.len() > 0 {
        lemma_free_variable_minimality_fields(fs.drop_last(), scope, env);
        lemma_free_variable_minimality(fs.last().1, scope, env);
    }
}

proof fn lemma_free_variable_minimality_arms(
    arms: Seq<(TypeBinding, TypeExpr)>,
    scope: Seq<Seq<char>>,
    env: Seq<Seq<char>>,
)
    requires
        no_free_locals_arms(arms, scope),
    ensures
        spec_get_env_arms(arms, scope, env) == env,
    decreases arms, 1int,
{
    if arms.len() > 0 {
        lemma_free_variable_minimality_arms(arms.drop_last(), scope, env);
        let bs = spec_binding_idents(arms.last().0);
        lemma_free_variable_minimality(arms.last().1, scope + bs, env);
    }
}

} // verus!
