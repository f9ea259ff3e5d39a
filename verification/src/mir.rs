//! The monomorphic, type-erased output representation: concrete types,
//! global identities, lowered expressions, and the matcher/extractor pair
//! that pattern compilation produces.

use vstd::prelude::*;

verus! {

use crate::hir::{Intrinsic, Literal, LiteralV, Primitive, Span, UnaryOp, BinaryOp};
use crate::intern::{Ident, ident_str};

broadcast use vstd::seq::group_seq_axioms, vstd::std_specs::vec::group_vec_axioms;

/// A concrete, name-erased type: no generic parameter survives in it.
#[derive(Debug, PartialEq, Eq)]
pub enum RawType {
    Primitive(Primitive),
    List(Box<RawType>),
    Product(Vec<RawType>),
    Sum(Vec<RawType>),
    Func(Box<RawType>, Box<RawType>),
    Boxed(Ident, Vec<RawType>),
}

/// The mathematical value of a `RawType`: interned names become strings.
#[verifier::ext_equal]
pub enum RawTypeV {
    Primitive(Primitive),
    List(Box<RawTypeV>),
    Product(Seq<RawTypeV>),
    Sum(Seq<RawTypeV>),
    Func(Box<RawTypeV>, Box<RawTypeV>),
    Boxed(Seq<char>, Seq<RawTypeV>),
}

impl RawType {
    pub open spec fn view(self) -> RawTypeV
        decreases self,
    {
        match self {
            RawType::Primitive(p) => RawTypeV::Primitive(p),
            RawType::List(item) => RawTypeV::List(Box::new((*item).view())),
            RawType::Product(items) => RawTypeV::Product(raw_types_view(items@)),
            RawType::Sum(items) => RawTypeV::Sum(raw_types_view(items@)),
            RawType::Func(i, o) => RawTypeV::Func(
                Box::new((*i).view()),
                Box::new((*o).view()),
            ),
            RawType::Boxed(name, params) => RawTypeV::Boxed(
                ident_str(name),
                raw_types_view(params@),
            ),
        }
    }
}

pub open spec fn raw_types_view(ts: Seq<RawType>) -> Seq<RawTypeV>
    decreases ts,
{
    if ts.len() == 0 {
        Seq::empty()
    } else {
        raw_types_view(ts.drop_last()).push(ts.last().view())
    }
}

pub broadcast proof fn lemma_raw_types_view(ts: Seq<RawType>)
    ensures
        (#[trigger] raw_types_view(ts)).len() == ts.len(),
        forall|i: int| 0 <= i < ts.len() ==> raw_types_view(ts)[i] == ts[i].view(),
    decreases ts,
{
    if ts.len() > 0 {
        lemma_raw_types_view(ts.drop_last());
        assert(forall|i: int| 0 <= i < ts.len() - 1 ==> ts.drop_last()[i] == ts[i]);
    }
}

/// The identity of one monomorphic global: a definition name together with
/// the concrete types its generic parameters were instantiated at. Two
/// references agree exactly when these agree structurally.
#[derive(Debug, PartialEq, Eq)]
pub struct DefId {
    pub name: Ident,
    pub args: Vec<RawType>,
}

/// The mathematical value of a `DefId`.
#[verifier::ext_equal]
pub struct DefIdV {
    pub name: Seq<char>,
    pub args: Seq<RawTypeV>,
}

impl DefId {
    pub open spec fn view(self) -> DefIdV {
        DefIdV { name: ident_str(self.name), args: raw_types_view(self.args@) }
    }
}

/// A refutability test over a value's shape, independent of any binding.
#[derive(Debug, PartialEq, Eq)]
pub enum Matcher {
    Wildcard,
    Exactly(Literal),
    Product(Vec<Matcher>),
    List(Vec<Matcher>),
    ListFront(Vec<Matcher>),
}

/// The mathematical value of a `Matcher`.
#[verifier::ext_equal]
pub enum MatcherV {
    Wildcard,
    Exactly(LiteralV),
    Product(Seq<MatcherV>),
    List(Seq<MatcherV>),
    ListFront(Seq<MatcherV>),
}

impl Matcher {
    pub open spec fn view(self) -> MatcherV
        decreases self,
    {
        match self {
            Matcher::Wildcard => MatcherV::Wildcard,
            Matcher::Exactly(l) => MatcherV::Exactly(l@),
            Matcher::Product(items) => MatcherV::Product(matchers_view(items@)),
            Matcher::List(items) => MatcherV::List(matchers_view(items@)),
            Matcher::ListFront(items) => MatcherV::ListFront(matchers_view(items@)),
        }
    }
}

pub open spec fn matchers_view(ms: Seq<Matcher>) -> Seq<MatcherV>
    decreases ms,
{
    if ms.len() == 0 {
        Seq::empty()
    } else {
        matchers_view(ms.drop_last()).push(ms.last().view())
    }
}

/// How to pull bound names out of a value's shape, independent of whether
/// the match itself can fail.
#[derive(Debug, PartialEq, Eq)]
pub enum Extractor {
    Just(Option<Ident>),
    Product(Option<Ident>, Vec<Extractor>),
    List(Option<Ident>, Vec<Extractor>),
    ListFront(Option<Ident>, Vec<Extractor>, Option<Ident>),
}

/// The mathematical value of an `Extractor`.
#[verifier::ext_equal]
pub enum ExtractorV {
    Just(Option<Seq<char>>),
    Product(Option<Seq<char>>, Seq<ExtractorV>),
    List(Option<Seq<char>>, Seq<ExtractorV>),
    ListFront(Option<Seq<char>>, Seq<ExtractorV>, Option<Seq<char>>),
}

/// The string an optional capture name stands for.
pub open spec fn opt_name_view(n: Option<Ident>) -> Option<Seq<char>> {
    match n {
        None => None,
        Some(i) => Some(ident_str(i)),
    }
}

impl Extractor {
    pub open spec fn view(self) -> ExtractorV
        decreases self,
    {
        match self {
            Extractor::Just(n) => ExtractorV::Just(opt_name_view(n)),
            Extractor::Product(n, items) => ExtractorV::Product(
                opt_name_view(n),
                extractors_view(items@),
            ),
            Extractor::List(n, items) => ExtractorV::List(
                opt_name_view(n),
                extractors_view(items@),
            ),
            Extractor::ListFront(n, items, tail) => ExtractorV::ListFront(
                opt_name_view(n),
                extractors_view(items@),
                opt_name_view(tail),
            ),
        }
    }
}

pub open spec fn extractors_view(xs: Seq<Extractor>) -> Seq<ExtractorV>
    decreases xs,
{
    if xs.len() == 0 {
        Seq::empty()
    } else {
        extractors_view(xs.drop_last()).push(xs.last().view())
    }
}

/// A lowered expression node: the expression with its source position and
/// its concrete type.
#[derive(Debug, PartialEq, Eq)]
pub struct RawTypeNode {
    pub expr: Box<Expr>,
    pub span: Span,
    pub ty: RawType,
}

/// A monomorphic expression. Records have become positional tuples, global
/// references carry a `DefId`, and match arms carry their compiled
/// matcher/extractor pair.
#[derive(Debug, PartialEq, Eq)]
pub enum Expr {
    Literal(Literal),
    GetGlobal(DefId),
    GetLocal(Ident),
    Intrinsic(Intrinsic, Vec<RawTypeNode>),
    Unary(UnaryOp, RawTypeNode),
    Binary(BinaryOp, RawTypeNode, RawTypeNode),
    Tuple(Vec<RawTypeNode>),
    List(Vec<RawTypeNode>),
    Apply(RawTypeNode, RawTypeNode),
    Access(RawTypeNode, usize),
    Update(RawTypeNode, usize, Ident, RawTypeNode),
    Func(Extractor, Vec<Ident>, RawTypeNode),
    Match(RawTypeNode, Vec<(Matcher, Extractor, RawTypeNode)>),
}

/// The mathematical value of a lowered node.
#[verifier::ext_equal]
pub struct NodeV {
    pub expr: Box<ExprV>,
    pub span: Span,
    pub ty: RawTypeV,
}

/// The mathematical value of a lowered expression.
#[verifier::ext_equal]
pub enum ExprV {
    Literal(LiteralV),
    GetGlobal(DefIdV),
    GetLocal(Seq<char>),
    Intrinsic(Intrinsic, Seq<NodeV>),
    Unary(UnaryOp, NodeV),
    Binary(BinaryOp, NodeV, NodeV),
    Tuple(Seq<NodeV>),
    List(Seq<NodeV>),
    Apply(NodeV, NodeV),
    Access(NodeV, int),
    Update(NodeV, int, Seq<char>, NodeV),
    Func(ExtractorV, Seq<Seq<char>>, NodeV),
    Match(NodeV, Seq<(MatcherV, ExtractorV, NodeV)>),
}

/// The strings a list of interned names stands for.
pub open spec fn idents_view(ns: Seq<Ident>) -> Seq<Seq<char>> {
    Seq::new(ns.len(), |i: int| ident_str(ns[i]))
}

impl RawTypeNode {
    pub open spec fn view(self) -> NodeV
        decreases self,
    {
        NodeV { expr: Box::new((*self.expr).view()), span: self.span, ty: self.ty.view() }
    }
}

impl Expr {
    pub open spec fn view(self) -> ExprV
        decreases self,
    {
        match self {
            Expr::Literal(l) => ExprV::Literal(l@),
            Expr::GetGlobal(id) => ExprV::GetGlobal(id@),
            Expr::GetLocal(x) => ExprV::GetLocal(ident_str(x)),
            Expr::Intrinsic(i, args) => ExprV::Intrinsic(i, nodes_view(args@)),
            Expr::Unary(op, a) => ExprV::Unary(op, a@),
            Expr::Binary(op, a, b) => ExprV::Binary(op, a@, b@),
            Expr::Tuple(items) => ExprV::Tuple(nodes_view(items@)),
            Expr::List(items) => ExprV::List(nodes_view(items@)),
            Expr::Apply(f, arg) => ExprV::Apply(f@, arg@),
            Expr::Access(r, idx) => ExprV::Access(r@, idx as int),
            Expr::Update(r, idx, name, v) => ExprV::Update(r@, idx as int, ident_str(name), v@),
            Expr::Func(x, env, body) => ExprV::Func(x@, idents_view(env@), body@),
            Expr::Match(pred, arms) => ExprV::Match(pred@, match_arms_view(arms@)),
        }
    }
}

pub open spec fn nodes_view(ns: Seq<RawTypeNode>) -> Seq<NodeV>
    decreases ns,
{
    if ns.len() == 0 {
        Seq::empty()
    } else {
        nodes_view(ns.drop_last()).push(ns.last().view())
    }
}

pub open spec fn match_arms_view(arms: Seq<(Matcher, Extractor, RawTypeNode)>) -> Seq<
    (MatcherV, ExtractorV, NodeV),
>
    decreases arms,
{
    if arms.len() == 0 {
        Seq::empty()
    } else {
        match_arms_view(arms.drop_last()).push(
            (arms.last().0.view(), arms.last().1.view(), arms.last().2.view()),
        )
    }
}

/// Whether a matcher can fail against some value of the right shape.
pub open spec fn spec_is_refutable(m: MatcherV) -> bool
    decreases m,
{
    match m {
        MatcherV::Wildcard => false,
        MatcherV::Exactly(_) => true,
        MatcherV::Product(items) => spec_any_refutable(items),
        MatcherV::List(_) => true,
        MatcherV::ListFront(items) => items.len() != 0,
    }
}

pub open spec fn spec_any_refutable(ms: Seq<MatcherV>) -> bool
    decreases ms,
{
    if ms.len() == 0 {
        false
    } else {
        spec_any_refutable(ms.drop_last()) || spec_is_refutable(ms.last())
    }
}

impl Matcher {
    /// Whether this matcher can reject a value: a wildcard never can, a
    /// literal test always can, a product can when any field's test can, a
    /// fixed-length list test always can (the length itself is checked),
    /// and a front test can exactly when it has at least one leading
    /// element pattern.
    #[verifier::loop_isolation(false)]
    pub fn is_refutable(&self) -> (r: bool)
        ensures
            r == spec_is_refutable(self.view()),
        decreases *self,
    {
        match self {
            Matcher::Wildcard => false,
            Matcher::Exactly(_) => true,
            Matcher::Product(items) => {
                let mut any: bool = false;
                let mut i: usize = 0;
                proof {
                    assert(items@.subrange(0, 0) =~= Seq::<Matcher>::empty());
                }
                while i < items.len()
                    invariant
                        0 <= i <= items@.len(),
                        any == spec_any_refutable(matchers_view(items@.subrange(0, i as int))),
                    decreases items@.len() - i,
                {
                    proof {
                        assert(decreases_to!(*self => *items));
                        assert(decreases_to!(*items => items@));
                        assert(decreases_to!(items@ => items@[i as int]));
                    }
                    let c = items[i].is_refutable();
                    proof {
                        let pre = items@.subrange(0, i as int);
                        let post = items@.subrange(0, i as int + 1);
                        assert(post.drop_last() =~= pre);
                        assert(post.last() == items@[i as int]);
                        let mv = matchers_view(pre).push(items@[i as int].view());
                        assert(matchers_view(post) == mv);
                        assert(mv.drop_last() =~= matchers_view(pre));
                        assert(mv.last() == items@[i as int].view());
                    }
                    any = any || c;
                    i += 1;
                }
                proof {
                    assert(items@.subrange(0, items@.len() as int) =~= items@);
                }
                any
            },
            Matcher::List(_) => true,
            Matcher::ListFront(items) => items.len() != 0,
        }
    }
}

/// Whether an extractor binds any name at all.
pub open spec fn spec_extracts_anything(x: ExtractorV) -> bool
    decreases x,
{
    match x {
        ExtractorV::Just(n) => n is Some,
        ExtractorV::Product(n, items) => n is Some || spec_any_extracts(items),
        ExtractorV::List(n, items) => n is Some || spec_any_extracts(items),
        ExtractorV::ListFront(n, items, tail) => n is Some || tail is Some || spec_any_extracts(
            items,
        ),
    }
}

pub open spec fn spec_any_extracts(xs: Seq<ExtractorV>) -> bool
    decreases xs,
{
    if xs.len() == 0 {
        false
    } else {
        spec_any_extracts(xs.drop_last()) || spec_extracts_anything(xs.last())
    }
}

/// One optional name as a (possibly empty) list of names.
pub open spec fn opt_name_seq(n: Option<Seq<char>>) -> Seq<Seq<char>> {
    match n {
        None => Seq::empty(),
        Some(s) => seq![s],
    }
}

/// Every name an extractor binds, in pre-order: a node's own capture
/// first, its tail capture next, then its children in declared order.
pub open spec fn spec_ext_bindings(x: ExtractorV) -> Seq<Seq<char>>
    decreases x,
{
    match x {
        ExtractorV::Just(n) => opt_name_seq(n),
        ExtractorV::Product(n, items) => opt_name_seq(n) + spec_exts_bindings(items),
        ExtractorV::List(n, items) => opt_name_seq(n) + spec_exts_bindings(items),
        ExtractorV::ListFront(n, items, tail) => opt_name_seq(n) + opt_name_seq(tail)
            + spec_exts_bindings(items),
    }
}

pub open spec fn spec_exts_bindings(xs: Seq<ExtractorV>) -> Seq<Seq<char>>
    decreases xs,
{
    if xs.len() == 0 {
        Seq::empty()
    } else {
        spec_exts_bindings(xs.drop_last()) + spec_ext_bindings(xs.last())
    }
}

impl Extractor {
    /// Whether any node of this extractor, or a tail capture, binds a name.
    #[verifier::loop_isolation(false)]
    pub fn extracts_anything(&self) -> (r: bool)
        ensures
            r == spec_extracts_anything(self.view()),
        decreases *self,
    {
        let (own, items, tail): (&Option<Ident>, Option<&Vec<Extractor>>, &Option<Ident>) =
            match self {
            Extractor::Just(n) => (n, None, &None),
            Extractor::Product(n, items) => (n, Some(items), &None),
            Extractor::List(n, items) => (n, Some(items), &None),
            Extractor::ListFront(n, items, tail) => (n, Some(items), tail),
        };
        let mut any: bool = own.is_some() || tail.is_some();
        if let Some(items) = items {
            let mut i: usize = 0;
            proof {
                assert(items@.subrange(0, 0) =~= Seq::<Extractor>::empty());
            }
            while i < items.len()
                invariant
                    0 <= i <= items@.len(),
                    any == (own is Some || tail is Some || spec_any_extracts(
                        extractors_view(items@.subrange(0, i as int)),
                    )),
                decreases items@.len() - i,
            {
                proof {
                    assert(decreases_to!(*self => *items));
                    assert(decreases_to!(*items => items@));
                    assert(decreases_to!(items@ => items@[i as int]));
                }
                let c = items[i].extracts_anything();
                proof {
                    let pre = items@.subrange(0, i as int);
                    let post = items@.subrange(0, i as int + 1);
                    assert(post.drop_last() =~= pre);
                    assert(post.last() == items@[i as int]);
                    let ev = extractors_view(pre).push(items@[i as int].view());
                    assert(extractors_view(post) == ev);
                    assert(ev.drop_last() =~= extractors_view(pre));
                    assert(ev.last() == items@[i as int].view());
                }
                any = any || c;
                i += 1;
            }
            proof {
                assert(items@.subrange(0, items@.len() as int) =~= items@);
            }
        }
        any
    }

    /// Append every name this extractor binds, in pre-order.
    #[verifier::loop_isolation(false)]
    fn bindings(&self, out: &mut Vec<Ident>)
        ensures
            idents_view(final(out)@) == idents_view(old(out)@) + spec_ext_bindings(self.view()),
        decreases *self,
    {
        let (own, items, tail): (&Option<Ident>, Option<&Vec<Extractor>>, &Option<Ident>) =
            match self {
            Extractor::Just(n) => (n, None, &None),
            Extractor::Product(n, items) => (n, Some(items), &None),
            Extractor::List(n, items) => (n, Some(items), &None),
            Extractor::ListFront(n, items, tail) => (n, Some(items), tail),
        };
        let ghost base = out@;
        if let Some(this) = own {
            out.push(*this);
        }
        if let Some(t) = tail {
            out.push(*t);
        }
        let ghost head = out@;
        proof {
            assert(idents_view(head) =~= idents_view(base) + opt_name_seq(opt_name_view(*own))
                + opt_name_seq(opt_name_view(*tail)));
        }
        if let Some(items) = items {
            let mut i: usize = 0;
            proof {
                assert(items@.subrange(0, 0) =~= Seq::<Extractor>::empty());
                assert(idents_view(out@) =~= idents_view(head) + spec_exts_bindings(
                    extractors_view(items@.subrange(0, 0)),
                ));
            }
            while i < items.len()
                invariant
                    0 <= i <= items@.len(),
                    idents_view(out@) == idents_view(head) + spec_exts_bindings(
                        extractors_view(items@.subrange(0, i as int)),
                    ),
                decreases items@.len() - i,
            {
                proof {
                    assert(decreases_to!(*self => *items));
                    assert(decreases_to!(*items => items@));
                    assert(decreases_to!(items@ => items@[i as int]));
                }
                items[i].bindings(out);
                proof {
                    let pre = items@.subrange(0, i as int);
                    let post = items@.subrange(0, i as int + 1);
                    assert(post.drop_last() =~= pre);
                    assert(post.last() == items@[i as int]);
                    let ev = extractors_view(pre).push(items@[i as int].view());
                    assert(extractors_view(post) == ev);
                    assert(ev.drop_last() =~= extractors_view(pre));
                    assert(ev.last() == items@[i as int].view());
                    assert(idents_view(out@) =~= idents_view(head) + spec_exts_bindings(
                        extractors_view(post),
                    ));
                }
                i += 1;
            }
            proof {
                assert(items@.subrange(0, items@.len() as int) =~= items@);
            }
        }
    }

    /// Every name this extractor binds, in pre-order: each node's own
    /// capture first, a tail capture next, then its children in order.
    pub fn get_bindings(&self) -> (r: Vec<Ident>)
        ensures
            idents_view(r@) == spec_ext_bindings(self.view()),
    {
        let mut out: Vec<Ident> = Vec::new();
        proof {
            assert(idents_view(out@) =~= Seq::<Seq<char>>::empty());
        }
        self.bindings(&mut out);
        proof {
            assert(idents_view(out@) =~= spec_ext_bindings(self.view()));
        }
        out
    }
}

/// The canonical rendering of a primitive type's name.
pub open spec fn prim_name(p: Primitive) -> Seq<char> {
    match p {
        Primitive::Number => "Num"@,
        Primitive::Boolean => "Bool"@,
        Primitive::Text => "Str"@,
    }
}

/// The canonical, deterministic rendering of a concrete type: a primitive
/// name, `[elem]` for lists, `(a, b)` for products, `(a | b)` for sums,
/// `in -> out` for functions, and `Name p1 p2` for nominal types.
pub open spec fn spec_mangle(t: RawTypeV) -> Seq<char>
    decreases t,
{
    match t {
        RawTypeV::Primitive(p) => prim_name(p),
        RawTypeV::List(item) => "["@ + spec_mangle(*item) + "]"@,
        RawTypeV::Product(items) => "("@ + spec_mangle_join(items, ", "@) + ")"@,
        RawTypeV::Sum(items) => "("@ + spec_mangle_join(items, " | "@) + ")"@,
        RawTypeV::Func(i, o) => spec_mangle(*i) + " -> "@ + spec_mangle(*o),
        RawTypeV::Boxed(name, params) => name + spec_mangle_params(params),
    }
}

/// Renderings of `items` joined by `sep`.
pub open spec fn spec_mangle_join(items: Seq<RawTypeV>, sep: Seq<char>) -> Seq<char>
    decreases items,
{
    if items.len() == 0 {
        Seq::empty()
    } else if items.len() == 1 {
        spec_mangle(items.last())
    } else {
        spec_mangle_join(items.drop_last(), sep) + sep + spec_mangle(items.last())
    }
}

/// Renderings of nominal type parameters, each preceded by one space.
pub open spec fn spec_mangle_params(params: Seq<RawTypeV>) -> Seq<char>
    decreases params,
{
    if params.len() == 0 {
        Seq::empty()
    } else {
        spec_mangle_params(params.drop_last()) + " "@ + spec_mangle(params.last())
    }
}

impl RawType {
    /// The canonical, deterministic human-readable rendering of this type,
    /// for diagnostics and symbol naming.
    #[verifier::loop_isolation(false)]
    pub fn mangle(&self) -> (r: String)
        ensures
            r@ == spec_mangle(self.view()),
        decreases *self,
    {
        match self {
            RawType::Primitive(p) => {
                let s: &str = match p {
                    Primitive::Number => "Num",
                    Primitive::Boolean => "Bool",
                    Primitive::Text => "Str",
                };
                s.to_owned()
            },
            RawType::List(item) => {
                let mut s: String = "[".to_owned();
                proof {
                    assert(decreases_to!(*self => *item));
                }
                let m = item.mangle();
                crate::intern::str_append(&mut s, m.as_str());
                crate::intern::str_append(&mut s, "]");
                s
            },
            RawType::Product(items) => {
                proof {
                    assert(decreases_to!(*self => *items));
                }
                mangle_join(items, ", ")
            },
            RawType::Sum(items) => {
                proof {
                    assert(decreases_to!(*self => *items));
                }
                mangle_join(items, " | ")
            },
            RawType::Func(i, o) => {
                proof {
                    assert(decreases_to!(*self => *i));
                    assert(decreases_to!(*self => *o));
                }
                let mut s = i.mangle();
                crate::intern::str_append(&mut s, " -> ");
                let m = o.mangle();
                crate::intern::str_append(&mut s, m.as_str());
                s
            },
            RawType::Boxed(name, params) => {
                let mut s = crate::intern::ident_string(*name);
                let mut i: usize = 0;
                proof {
                    assert(params@.subrange(0, 0) =~= Seq::<RawType>::empty());
                }
                while i < params.len()
                    invariant
                        0 <= i <= params@.len(),
                        s@ == ident_str(*name) + spec_mangle_params(
                            raw_types_view(params@.subrange(0, i as int)),
                        ),
                    decreases params@.len() - i,
                {
                    proof {
                        assert(decreases_to!(*self => *params));
                        assert(decreases_to!(*params => params@));
                        assert(decreases_to!(params@ => params@[i as int]));
                    }
                    crate::intern::str_append(&mut s, " ");
                    let m = params[i].mangle();
                    crate::intern::str_append(&mut s, m.as_str());
                    proof {
                        let pre = params@.subrange(0, i as int);
                        let post = params@.subrange(0, i as int + 1);
                        assert(post.drop_last() =~= pre);
                        assert(post.last() == params@[i as int]);
                        let rv = raw_types_view(pre).push(params@[i as int].view());
                        assert(raw_types_view(post) == rv);
                        assert(rv.drop_last() =~= raw_types_view(pre));
                        assert(rv.last() == params@[i as int].view());
                        assert(s@ =~= ident_str(*name) + spec_mangle_params(
                            raw_types_view(post),
                        ));
                    }
                    i += 1;
                }
                proof {
                    assert(params@.subrange(0, params@.len() as int) =~= params@);
                }
                s
            },
        }
    }
}

/// Renderings of `items` joined by `sep`, wrapped in parentheses.
#[verifier::loop_isolation(false)]
fn mangle_join(items: &Vec<RawType>, sep: &str) -> (r: String)
    ensures
        r@ == "("@ + spec_mangle_join(raw_types_view(items@), sep@) + ")"@,
    decreases *items,
{
    let mut s: String = "(".to_owned();
    let mut i: usize = 0;
    proof {
        assert(items@.subrange(0, 0) =~= Seq::<RawType>::empty());
    }
    while i < items.len()
        invariant
            0 <= i <= items@.len(),
            s@ == "("@ + spec_mangle_join(raw_types_view(items@.subrange(0, i as int)), sep@),
        decreases items@.len() - i,
    {
        proof {
            assert(decreases_to!(*items => items@));
            assert(decreases_to!(items@ => items@[i as int]));
        }
        if i > 0 {
            crate::intern::str_append(&mut s, sep);
        }
        let m = items[i].mangle();
        crate::intern::str_append(&mut s, m.as_str());
        proof {
            let pre = items@.subrange(0, i as int);
            let post = items@.subrange(0, i as int + 1);
            assert(post.drop_last() =~= pre);
            assert(post.last() == items@[i as int]);
            let rv = raw_types_view(pre).push(items@[i as int].view());
            assert(raw_types_view(post) == rv);
            assert(rv.drop_last() =~= raw_types_view(pre));
            assert(rv.last() == items@[i as int].view());
            assert(s@ =~= "("@ + spec_mangle_join(raw_types_view(post), sep@));
        }
        i += 1;
    }
    proof {
        assert(items@.subrange(0, items@.len() as int) =~= items@);
    }
    crate::intern::str_append(&mut s, ")");
    s
}

impl Clone for RawType {
    /// A structural copy: the copy's mathematical value is the source value's.
    #[verifier::loop_isolation(false)]
    fn clone(&self) -> (r: Self)
        ensures
            r.view() == self.view(),
        decreases *self,
    {
        match self {
            RawType::Primitive(p) => RawType::Primitive(*p),
            RawType::List(item) => {
                proof {
                    assert(decreases_to!(*self => *item));
                }
                RawType::List(Box::new((**item).clone()))
            },
            RawType::Product(items) => {
                proof {
                    assert(decreases_to!(*self => *items));
                }
                let r = RawType::Product(clone_raw_types(items));
                proof {
                    assert(r.view() =~= self.view());
                }
                r
            },
            RawType::Sum(items) => {
                proof {
                    assert(decreases_to!(*self => *items));
                }
                let r = RawType::Sum(clone_raw_types(items));
                proof {
                    assert(r.view() =~= self.view());
                }
                r
            },
            RawType::Func(i, o) => {
                proof {
                    assert(decreases_to!(*self => *i));
                    assert(decreases_to!(*self => *o));
                }
                RawType::Func(Box::new((**i).clone()), Box::new((**o).clone()))
            },
            RawType::Boxed(name, params) => {
                proof {
                    assert(decreases_to!(*self => *params));
                }
                let r = RawType::Boxed(*name, clone_raw_types(params));
                proof {
                    assert(r.view() =~= self.view());
                }
                r
            },
        }
    }
}

/// A structural copy of a list of concrete types.
#[verifier::loop_isolation(false)]
pub fn clone_raw_types(ts: &Vec<RawType>) -> (r: Vec<RawType>)
    ensures
        raw_types_view(r@) == raw_types_view(ts@),
    decreases *ts,
{
    let mut out: Vec<RawType> = Vec::new();
    let mut i: usize = 0;
    proof {
        assert(ts@.subrange(0, 0) =~= Seq::<RawType>::empty());
        assert(out@.subrange(0, 0) =~= out@);
    }
    while i < ts.len()
        invariant
            0 <= i <= ts@.len(),
            out@.len() == i,
            raw_types_view(out@) == raw_types_view(ts@.subrange(0, i as int)),
        decreases ts@.len() - i,
    {
        proof {
            assert(decreases_to!(*ts => ts@));
            assert(decreases_to!(ts@ => ts@[i as int]));
        }
        let c = ts[i].clone();
        proof {
            let pre = ts@.subrange(0, i as int);
            let post = ts@.subrange(0, i as int + 1);
            assert(post.drop_last() =~= pre);
            assert(post.last() == ts@[i as int]);
            assert(out@.push(c).drop_last() =~= out@);
        }
        out.push(c);
        i += 1;
    }
    proof {
        assert(ts@.subrange(0, ts@.len() as int) =~= ts@);
    }
    out
}

impl Clone for DefId {
    /// A structural copy: the copy's mathematical value is the source value's.
    fn clone(&self) -> (r: Self)
        ensures
            r.view() == self.view(),
    {
        let r = DefId { name: self.name, args: clone_raw_types(&self.args) };
        proof {
            assert(r.view() =~= self.view());
        }
        r
    }
}

/// Whether two concrete types have the same mathematical value: structural
/// equality with interned names compared by their strings.
#[verifier::loop_isolation(false)]
pub fn raw_type_eq(a: &RawType, b: &RawType) -> (r: bool)
    ensures
        r <==> a.view() == b.view(),
    decreases *a,
{
    match (a, b) {
        (RawType::Primitive(p), RawType::Primitive(q)) => p == q,
        (RawType::List(x), RawType::List(y)) => {
            proof {
                assert(decreases_to!(*a => *x));
            }
            let r = raw_type_eq(x, y);
            proof {
                if r {
                    assert(a.view() =~= b.view());
                }
            }
            r
        },
        (RawType::Product(xs), RawType::Product(ys)) => {
            proof {
                assert(decreases_to!(*a => *xs));
            }
            let r = raw_types_eq(xs, ys);
            proof {
                if r {
                    assert(a.view() =~= b.view());
                }
            }
            r
        },
        (RawType::Sum(xs), RawType::Sum(ys)) => {
            proof {
                assert(decreases_to!(*a => *xs));
            }
            let r = raw_types_eq(xs, ys);
            proof {
                if r {
                    assert(a.view() =~= b.view());
                }
            }
            r
        },
        (RawType::Func(i1, o1), RawType::Func(i2, o2)) => {
            proof {
                assert(decreases_to!(*a => *i1));
                assert(decreases_to!(*a => *o1));
            }
            let r = raw_type_eq(i1, i2) && raw_type_eq(o1, o2);
            proof {
                if r {
                    assert(a.view() =~= b.view());
                }
            }
            r
        },
        (RawType::Boxed(n1, ps1), RawType::Boxed(n2, ps2)) => {
            proof {
                assert(decreases_to!(*a => *ps1));
            }
            let r = crate::intern::ident_eq(*n1, *n2) && raw_types_eq(ps1, ps2);
            proof {
                if r {
                    assert(a.view() =~= b.view());
                }
            }
            r
        },
        _ => false,
    }
}

/// Whether two lists of concrete types have the same mathematical value.
#[verifier::loop_isolation(false)]
pub fn raw_types_eq(xs: &Vec<RawType>, ys: &Vec<RawType>) -> (r: bool)
    ensures
        r <==> raw_types_view(xs@) == raw_types_view(ys@),
    decreases *xs,
{
    proof {
        lemma_raw_types_view(xs@);
        lemma_raw_types_view(ys@);
    }
    if xs.len() != ys.len() {
        return false;
    }
    let mut i: usize = 0;
    let mut all: bool = true;
    while i < xs.len()
        invariant
            0 <= i <= xs@.len(),
            all <==> (forall|j: int|
                0 <= j < i ==> raw_types_view(xs@)[j] == raw_types_view(ys@)[j]),
        decreases xs@.len() - i,
    {
        proof {
            assert(decreases_to!(*xs => xs@));
            assert(decreases_to!(xs@ => xs@[i as int]));
        }
        let c = raw_type_eq(&xs[i], &ys[i]);
        proof {
            assert(raw_types_view(xs@)[i as int] == xs@[i as int].view());
            assert(raw_types_view(ys@)[i as int] == ys@[i as int].view());
        }
        all = all && c;
        i += 1;
    }
    proof {
        if all {
            assert(raw_types_view(xs@) =~= raw_types_view(ys@));
        }
    }
    all
}

/// Whether two global identities agree: same definition name, same
/// concrete type arguments.
pub fn def_id_eq(a: &DefId, b: &DefId) -> (r: bool)
    ensures
        r <==> a.view() == b.view(),
{
    let r = crate::intern::ident_eq(a.name, b.name) && raw_types_eq(&a.args, &b.args);
    proof {
        if r {
            assert(a.view() =~= b.view());
        }
    }
    r
}

/// The failure a lowering run can end in.
#[derive(Clone, Copy, Debug, PartialEq, Eq)]
pub enum Error {
    /// The configured entry symbol resolves to no known definition.
    EntryNotFound(Ident),
    /// The instantiation budget was exhausted before the transitive closure
    /// of referenced definitions completed.
    DepthLimit,
}

/// The lowered program: the entry point's identity, and one body per
/// distinct instantiated definition. `None` marks an instantiation still in
/// progress; a finished run holds `Some` everywhere.
#[derive(Debug, PartialEq, Eq)]
pub struct Program {
    pub entry: DefId,
    pub globals: Vec<(DefId, Option<RawTypeNode>)>,
}

/// The mathematical value of the global map.
pub open spec fn globals_view(gs: Seq<(DefId, Option<RawTypeNode>)>) -> Seq<
    (DefIdV, Option<NodeV>),
> {
    Seq::new(
        gs.len(),
        |i: int|
            (
                gs[i].0.view(),
                match gs[i].1 {
                    None => None,
                    Some(n) => Some(n.view()),
                },
            ),
    )
}

} // verus!
