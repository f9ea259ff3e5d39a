//! The typed, name-resolved, still-generic input representation that the
//! lowering pass consumes: expressions, patterns, a definition registry and
//! a data-type registry, each node carrying its declared type and position.

use vstd::prelude::*;

verus! {

use crate::intern::{Ident, ident_str};

broadcast use vstd::seq::group_seq_axioms, vstd::std_specs::vec::group_vec_axioms;

/// An atomic built-in type.
#[derive(Clone, Copy, Debug, PartialEq, Eq, Structural)]
pub enum Primitive {
    Number,
    Boolean,
    Text,
}

/// A literal value as it appears in source programs; numeric literals are
/// whole numbers here, and the constructor tags the lowering emits use them.
#[derive(Clone, Copy, Debug, PartialEq, Eq)]
pub enum Literal {
    Number(u64),
    Boolean(bool),
    Text(Ident),
}

/// The mathematical value of a literal: interned names become strings.
#[verifier::ext_equal]
pub enum LiteralV {
    Number(u64),
    Boolean(bool),
    Text(Seq<char>),
}

impl Literal {
    pub open spec fn view(self) -> LiteralV {
        match self {
            Literal::Number(n) => LiteralV::Number(n),
            Literal::Boolean(b) => LiteralV::Boolean(b),
            Literal::Text(t) => LiteralV::Text(ident_str(t)),
        }
    }
}

/// A built-in unary operation.
#[derive(Clone, Copy, Debug, PartialEq, Eq, Structural)]
pub enum UnaryOp {
    Neg,
    Not,
}

/// A built-in binary operation.
#[derive(Clone, Copy, Debug, PartialEq, Eq, Structural)]
pub enum BinaryOp {
    Add,
    Sub,
    Mul,
    Div,
    Rem,
    Eq,
    NotEq,
    Less,
    More,
    LessEq,
    MoreEq,
    Join,
    And,
    Or,
}

/// An intrinsic operation supplied by the runtime.
#[derive(Clone, Copy, Debug, PartialEq, Eq, Structural)]
pub enum Intrinsic {
    Print,
    Input,
}

/// A source position, propagated unchanged onto every lowered node.
#[derive(Clone, Copy, Debug, PartialEq, Eq, Structural)]
pub struct Span {
    pub start: u64,
    pub end: u64,
}

/// A possibly generic type expression of the input representation.
#[derive(Debug, PartialEq, Eq)]
pub enum Ty {
    Primitive(Primitive),
    GenParam(Ident),
    Tuple(Vec<Ty>),
    Record(Vec<(Ident, Ty)>),
    List(Box<Ty>),
    Func(Box<Ty>, Box<Ty>),
    Data(usize, Vec<Ty>),
}

/// A typed expression node: the expression itself with its declared type
/// and source position.
#[derive(Debug, PartialEq, Eq)]
pub struct TypeExpr {
    pub expr: Box<Expr>,
    pub ty: Ty,
    pub span: Span,
}

/// A generic expression of the input representation.
#[derive(Debug, PartialEq, Eq)]
pub enum Expr {
    Literal(Literal),
    Local(Ident),
    Global(Ident, Vec<Ty>),
    Intrinsic(Intrinsic, Vec<TypeExpr>),
    Unary(UnaryOp, TypeExpr),
    Binary(BinaryOp, TypeExpr, TypeExpr),
    Tuple(Vec<TypeExpr>),
    Record(Vec<(Ident, TypeExpr)>),
    List(Vec<TypeExpr>),
    Apply(TypeExpr, TypeExpr),
    Access(TypeExpr, Ident),
    Update(TypeExpr, Ident, TypeExpr),
    Func(TypeBinding, TypeExpr),
    Match(TypeExpr, Vec<(TypeBinding, TypeExpr)>),
    Constructor(usize, u64, TypeExpr),
}

/// A typed pattern together with an optional capture of the whole value.
#[derive(Debug, PartialEq, Eq)]
pub struct TypeBinding {
    pub pat: Box<Pat>,
    pub binding: Option<Ident>,
}

/// A structural pattern of the input representation.
#[derive(Debug, PartialEq, Eq)]
pub enum Pat {
    Wildcard,
    Literal(Literal),
    Tuple(Vec<TypeBinding>),
    Record(Vec<(Ident, TypeBinding)>),
    List(Vec<TypeBinding>),
    ListFront(Vec<TypeBinding>, Option<Ident>),
    Deconstruct(usize, u64, TypeBinding),
}

/// A generic definition: its declared generic-parameter names and its body.
#[derive(Debug, PartialEq, Eq)]
pub struct Def {
    pub generics: Vec<Ident>,
    pub body: TypeExpr,
}

/// A user data type: its display name, its generic-parameter names, and its
/// ordered variants, each a name paired with a payload type.
#[derive(Debug, PartialEq, Eq)]
pub struct Data {
    pub name: Ident,
    pub generics: Vec<Ident>,
    pub variants: Vec<(Ident, Ty)>,
}

/// The whole input program: a definition registry keyed by name and a
/// data-type registry keyed by index.
#[derive(Debug, PartialEq, Eq)]
pub struct Program {
    pub defs: Vec<(Ident, Def)>,
    pub datas: Vec<Data>,
}

/// The definition a name resolves to: the first registry entry carrying it.
pub open spec fn spec_def_lookup(defs: Seq<(Ident, Def)>, name: Seq<char>) -> Option<Def>
    decreases defs,
{
    if defs.len() == 0 {
        None
    } else if ident_str(defs.first().0) == name {
        Some(defs.first().1)
    } else {
        spec_def_lookup(defs.drop_first(), name)
    }
}

/// A type is well formed when its generic parameters are all drawn from
/// `gens` and its data references stay inside the registry.
pub open spec fn ty_wf(t: Ty, gens: Set<Seq<char>>, datas: Seq<Data>) -> bool
    decreases t,
{
    match t {
        Ty::Primitive(_) => true,
        Ty::GenParam(x) => gens.contains(ident_str(x)),
        Ty::Tuple(items) => tys_wf(items@, gens, datas),
        Ty::Record(fields) => field_tys_wf(fields@, gens, datas),
        Ty::List(item) => ty_wf(*item, gens, datas),
        Ty::Func(i, o) => ty_wf(*i, gens, datas) && ty_wf(*o, gens, datas),
        Ty::Data(d, params) => d < datas.len() && tys_wf(params@, gens, datas),
    }
}

pub open spec fn tys_wf(ts: Seq<Ty>, gens: Set<Seq<char>>, datas: Seq<Data>) -> bool
    decreases ts,
{
    if ts.len() == 0 {
        true
    } else {
        tys_wf(ts.drop_last(), gens, datas) && ty_wf(ts.last(), gens, datas)
    }
}

pub open spec fn field_tys_wf(fs: Seq<(Ident, Ty)>, gens: Set<Seq<char>>, datas: Seq<Data>) -> bool
    decreases fs,
{
    if fs.len() == 0 {
        true
    } else {
        field_tys_wf(fs.drop_last(), gens, datas) && ty_wf(fs.last().1, gens, datas)
    }
}

pub broadcast proof fn lemma_tys_wf(ts: Seq<Ty>, gens: Set<Seq<char>>, datas: Seq<Data>)
    ensures
        #[trigger] tys_wf(ts, gens, datas) <==> (forall|i: int|
            0 <= i < ts.len() ==> ty_wf(#[trigger] ts[i], gens, datas)),
    decreases ts,
{
    if ts.len() > 0 {
        lemma_tys_wf(ts.drop_last(), gens, datas);
        assert(forall|i: int| 0 <= i < ts.len() - 1 ==> ts.drop_last()[i] == ts[i]);
    }
}

pub broadcast proof fn lemma_field_tys_wf(
    fs: Seq<(Ident, Ty)>,
    gens: Set<Seq<char>>,
    datas: Seq<Data>,
)
    ensures
        #[trigger] field_tys_wf(fs, gens, datas) <==> (forall|i: int|
            0 <= i < fs.len() ==> ty_wf((#[trigger] fs[i]).1, gens, datas)),
    decreases fs,
{
    if fs.len() > 0 {
        lemma_field_tys_wf(fs.drop_last(), gens, datas);
        assert(forall|i: int| 0 <= i < fs.len() - 1 ==> fs.drop_last()[i] == fs[i]);
    }
}

/// The set of generic-parameter names a definition or data type declares.
pub open spec fn gen_set(gens: Seq<Ident>) -> Set<Seq<char>> {
    Set::new(|n: Seq<char>| exists|i: int| 0 <= i < gens.len() && ident_str(#[trigger] gens[i]) == n)
}

/// A record-shaped field list to resolve a field name against, if the type
/// has one: a record type directly, or the first variant of a data type
/// standing proxy for one.
pub open spec fn spec_record_fields(t: Ty, datas: Seq<Data>) -> Option<Seq<(Ident, Ty)>> {
    match t {
        Ty::Record(fields) => Some(fields@),
        Ty::Data(d, _) => if 0 <= d < datas.len() && datas[d as int].variants@.len() > 0 {
            match datas[d as int].variants@[0].1 {
                Ty::Record(fields) => Some(fields@),
                _ => None,
            }
        } else {
            None
        },
        _ => None,
    }
}

/// Whether some field of `fs` carries the name `name`.
pub open spec fn has_field(fs: Seq<(Ident, Ty)>, name: Seq<char>) -> bool {
    exists|i: int| 0 <= i < fs.len() && ident_str((#[trigger] fs[i]).0) == name
}

/// A pattern is well formed when every data reference in it stays inside
/// the registry.
pub open spec fn binding_wf(b: TypeBinding, datas: Seq<Data>) -> bool
    decreases b,
{
    match *b.pat {
        Pat::Wildcard => true,
        Pat::Literal(_) => true,
        Pat::Tuple(items) => bindings_wf(items@, datas),
        Pat::Record(fields) => field_bindings_wf(fields@, datas),
        Pat::List(items) => bindings_wf(items@, datas),
        Pat::ListFront(items, _) => bindings_wf(items@, datas),
        Pat::Deconstruct(d, _, inner) => d < datas.len() && binding_wf(inner, datas),
    }
}

pub open spec fn bindings_wf(bs: Seq<TypeBinding>, datas: Seq<Data>) -> bool
    decreases bs,
{
    if bs.len() == 0 {
        true
    } else {
        bindings_wf(bs.drop_last(), datas) && binding_wf(bs.last(), datas)
    }
}

pub open spec fn field_bindings_wf(bs: Seq<(Ident, TypeBinding)>, datas: Seq<Data>) -> bool
    decreases bs,
{
    if bs.len() == 0 {
        true
    } else {
        field_bindings_wf(bs.drop_last(), datas) && binding_wf(bs.last().1, datas)
    }
}

pub broadcast proof fn lemma_bindings_wf(bs: Seq<TypeBinding>, datas: Seq<Data>)
    ensures
        #[trigger] bindings_wf(bs, datas) <==> (forall|i: int|
            0 <= i < bs.len() ==> binding_wf(#[trigger] bs[i], datas)),
    decreases bs,
{
    if bs.len() > 0 {
        lemma_bindings_wf(bs.drop_last(), datas);
        assert(forall|i: int| 0 <= i < bs.len() - 1 ==> bs.drop_last()[i] == bs[i]);
    }
}

pub broadcast proof fn lemma_field_bindings_wf(bs: Seq<(Ident, TypeBinding)>, datas: Seq<Data>)
    ensures
        #[trigger] field_bindings_wf(bs, datas) <==> (forall|i: int|
            0 <= i < bs.len() ==> binding_wf((#[trigger] bs[i]).1, datas)),
    decreases bs,
{
    if bs.len() > 0 {
        lemma_field_bindings_wf(bs.drop_last(), datas);
        assert(forall|i: int| 0 <= i < bs.len() - 1 ==> bs.drop_last()[i] == bs[i]);
    }
}

/// An expression is well formed, under the generic parameters `gens`, when
/// every type in it is well formed, every global reference resolves and
/// carries as many type arguments as its target declares, every
/// field access or update is made on a record-shaped type that has the
/// field, and every data reference stays inside the registry.
pub open spec fn expr_wf(e: TypeExpr, gens: Set<Seq<char>>, prog: Program) -> bool
    decreases e,
{
    ty_wf(e.ty, gens, prog.datas@) && match *e.expr {
        Expr::Literal(_) => true,
        Expr::Local(_) => true,
        Expr::Global(g, tys) => {
            &&& tys_wf(tys@, gens, prog.datas@)
            &&& match spec_def_lookup(prog.defs@, ident_str(g)) {
                Some(def) => def.generics@.len() == tys@.len(),
                None => false,
            }
        },
        Expr::Intrinsic(_, args) => exprs_wf(args@, gens, prog),
        Expr::Unary(_, a) => expr_wf(a, gens, prog),
        Expr::Binary(_, a, b) => expr_wf(a, gens, prog) && expr_wf(b, gens, prog),
        Expr::Tuple(items) => exprs_wf(items@, gens, prog),
        Expr::Record(fields) => field_exprs_wf(fields@, gens, prog),
        Expr::List(items) => exprs_wf(items@, gens, prog),
        Expr::Apply(f, arg) => expr_wf(f, gens, prog) && expr_wf(arg, gens, prog),
        Expr::Access(record, field) => {
            &&& expr_wf(record, gens, prog)
            &&& match spec_record_fields(record.ty, prog.datas@) {
                Some(fs) => has_field(fs, ident_str(field)),
                None => false,
            }
        },
        Expr::Update(record, field, value) => {
            &&& expr_wf(record, gens, prog)
            &&& expr_wf(value, gens, prog)
            &&& match spec_record_fields(record.ty, prog.datas@) {
                Some(fs) => has_field(fs, ident_str(field)),
                None => false,
            }
        },
        Expr::Func(binding, body) => binding_wf(binding, prog.datas@) && expr_wf(
            body,
            gens,
            prog,
        ),
        Expr::Match(pred, arms) => expr_wf(pred, gens, prog) && arms_wf(arms@, gens, prog),
        Expr::Constructor(d, _, inner) => d < prog.datas@.len() && expr_wf(inner, gens, prog),
    }
}

pub open spec fn exprs_wf(es: Seq<TypeExpr>, gens: Set<Seq<char>>, prog: Program) -> bool
    decreases es,
{
    if es.len() == 0 {
        true
    } else {
        exprs_wf(es.drop_last(), gens, prog) && expr_wf(es.last(), gens, prog)
    }
}

pub open spec fn field_exprs_wf(
    fs: Seq<(Ident, TypeExpr)>,
    gens: Set<Seq<char>>,
    prog: Program,
) -> bool
    decreases fs,
{
    if fs.len() == 0 {
        true
    } else {
        field_exprs_wf(fs.drop_last(), gens, prog) && expr_wf(fs.last().1, gens, prog)
    }
}

pub open spec fn arms_wf(arms: Seq<(TypeBinding, TypeExpr)>, gens: Set<Seq<char>>, prog: Program) -> bool
    decreases arms,
{
    if arms.len() == 0 {
        true
    } else {
        arms_wf(arms.drop_last(), gens, prog) && binding_wf(arms.last().0, prog.datas@)
            && expr_wf(arms.last().1, gens, prog)
    }
}

pub broadcast proof fn lemma_exprs_wf(es: Seq<TypeExpr>, gens: Set<Seq<char>>, prog: Program)
    ensures
        #[trigger] exprs_wf(es, gens, prog) <==> (forall|i: int|
            0 <= i < es.len() ==> expr_wf(#[trigger] es[i], gens, prog)),
    decreases es,
{
    if es.len() > 0 {
        lemma_exprs_wf(es.drop_last(), gens, prog);
        assert(forall|i: int| 0 <= i < es.len() - 1 ==> es.drop_last()[i] == es[i]);
    }
}

pub broadcast proof fn lemma_field_exprs_wf(
    fs: Seq<(Ident, TypeExpr)>,
    gens: Set<Seq<char>>,
    prog: Program,
)
    ensures
        #[trigger] field_exprs_wf(fs, gens, prog) <==> (forall|i: int|
            0 <= i < fs.len() ==> expr_wf((#[trigger] fs[i]).1, gens, prog)),
    decreases fs,
{
    if fs.len() > 0 {
        lemma_field_exprs_wf(fs.drop_last(), gens, prog);
        assert(forall|i: int| 0 <= i < fs.len() - 1 ==> fs.drop_last()[i] == fs[i]);
    }
}

pub broadcast proof fn lemma_arms_wf(
    arms: Seq<(TypeBinding, TypeExpr)>,
    gens: Set<Seq<char>>,
    prog: Program,
)
    ensures
        #[trigger] arms_wf(arms, gens, prog) <==> (forall|i: int|
            0 <= i < arms.len() ==> binding_wf((#[trigger] arms[i]).0, prog.datas@) && expr_wf(
                arms[i].1,
                gens,
                prog,
            )),
    decreases arms,
{
    if arms.len() > 0 {
        lemma_arms_wf(arms.drop_last(), gens, prog);
        assert(forall|i: int| 0 <= i < arms.len() - 1 ==> arms.drop_last()[i] == arms[i]);
    }
}

/// The whole input program is well formed: every definition's body is well
/// formed under that definition's own generic parameters.
pub open spec fn prog_wf(prog: Program) -> bool {
    forall|i: int|
        0 <= i < prog.defs@.len() ==> expr_wf(
            (#[trigger] prog.defs@[i]).1.body,
            gen_set(prog.defs@[i].1.generics@),
            prog,
        )
}

/// Look a definition up by name: the first registry entry carrying it.
pub fn def_lookup<'a>(defs: &'a Vec<(Ident, Def)>, name: Ident) -> (r: Option<&'a Def>)
    ensures
        match r {
            Some(def) => spec_def_lookup(defs@, ident_str(name)) == Some(*def),
            None => spec_def_lookup(defs@, ident_str(name)) is None,
        },
{
    let mut i: usize = 0;
    proof {
        assert(defs@.subrange(0, defs@.len() as int) =~= defs@);
    }
    while i < defs.len()
        invariant
            0 <= i <= defs@.len(),
            spec_def_lookup(defs@, ident_str(name)) == spec_def_lookup(
                defs@.subrange(i as int, defs@.len() as int),
                ident_str(name),
            ),
        decreases defs@.len() - i,
    {
        let found = crate::intern::ident_eq(defs[i].0, name);
        proof {
            let rest = defs@.subrange(i as int, defs@.len() as int);
            assert(rest.first() == defs@[i as int]);
            assert(rest.drop_first() =~= defs@.subrange(i as int + 1, defs@.len() as int));
        }
        if found {
            return Some(&defs[i].1);
        }
        i += 1;
    }
    proof {
        assert(defs@.subrange(i as int, defs@.len() as int).len() == 0);
    }
    None
}

} // verus!
