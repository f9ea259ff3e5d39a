//! The lowering pass itself: type instantiation, pattern compilation,
//! free-variable analysis, expression instantiation, and the memoizing
//! definition instantiator that drives them.

use vstd::prelude::*;

verus! {

use crate::hir;
use crate::hir::{Data, Def, Pat, Ty, TypeBinding, TypeExpr, Primitive};
use crate::intern::{Ident, ident_eq, ident_str, ident_string, new_ident, str_append};
use crate::mir::{
    DefId, DefIdV, Error, Extractor, ExtractorV, Matcher, MatcherV, RawType, RawTypeNode, RawTypeV,
    clone_raw_types, raw_types_view,
};

broadcast use vstd::seq::group_seq_axioms, vstd::std_specs::vec::group_vec_axioms;

/// A resolver mapping each generic-parameter name to the concrete type it
/// is instantiated at, positionally, first entry winning.
pub struct Resolver {
    pub entries: Vec<(Ident, RawType)>,
}

impl Resolver {
    pub open spec fn view(self) -> Seq<(Seq<char>, RawTypeV)> {
        Seq::new(
            self.entries@.len(),
            |i: int| (ident_str(self.entries@[i].0), self.entries@[i].1.view()),
        )
    }
}

/// The concrete type a resolver binds a name to: the first entry wins.
pub open spec fn res_lookup(res: Seq<(Seq<char>, RawTypeV)>, n: Seq<char>) -> Option<RawTypeV>
    decreases res,
{
    if res.len() == 0 {
        None
    } else if res.first().0 == n {
        Some(res.first().1)
    } else {
        res_lookup(res.drop_first(), n)
    }
}

/// The set of names a resolver binds.
pub open spec fn res_dom(res: Seq<(Seq<char>, RawTypeV)>) -> Set<Seq<char>> {
    Set::new(|n: Seq<char>| res_lookup(res, n) is Some)
}

/// A name is bound exactly when some entry carries it.
pub proof fn lemma_res_lookup_exists(res: Seq<(Seq<char>, RawTypeV)>, n: Seq<char>)
    ensures
        res_lookup(res, n) is Some <==> exists|i: int| 0 <= i < res.len() && (#[trigger] res[i]).0
            == n,
    decreases res,
{
    if res.len() > 0 {
        lemma_res_lookup_exists(res.drop_first(), n);
        if res.first().0 == n {
        } else if res_lookup(res.drop_first(), n) is Some {
            let i = choose|i: int| 0 <= i < res.drop_first().len() && (#[trigger] res.drop_first()[i]).0 == n;
            assert(res[i + 1].0 == n);
        } else {
            assert(forall|i: int|
                1 <= i < res.len() ==> (#[trigger] res[i]) == res.drop_first()[i - 1]);
        }
    }
}

/// Instantiating a type: primitives stand, generic parameters resolve,
/// tuples and records flatten to positional products, lists and functions
/// recurse, and a data reference becomes one `Boxed` type when the data
/// type has a single variant, else a `Sum` of one `Boxed` per variant
/// under a `TypeName::VariantName` mangled name.
pub open spec fn spec_inst_type(
    t: Ty,
    datas: Seq<Data>,
    res: Seq<(Seq<char>, RawTypeV)>,
) -> RawTypeV
    decreases t,
{
    match t {
        Ty::Primitive(p) => RawTypeV::Primitive(p),
        Ty::GenParam(x) => match res_lookup(res, ident_str(x)) {
            Some(c) => c,
            None => vstd::pervasive::arbitrary(),
        },
        Ty::Tuple(items) => RawTypeV::Product(spec_inst_types(items@, datas, res)),
        Ty::Record(fields) => RawTypeV::Product(spec_inst_fields(fields@, datas, res)),
        Ty::List(item) => RawTypeV::List(Box::new(spec_inst_type(*item, datas, res))),
        Ty::Func(i, o) => RawTypeV::Func(
            Box::new(spec_inst_type(*i, datas, res)),
            Box::new(spec_inst_type(*o, datas, res)),
        ),
        Ty::Data(d, params) => {
            let ps = spec_inst_types(params@, datas, res);
            let data = datas[d as int];
            if data.variants@.len() == 1 {
                RawTypeV::Boxed(ident_str(data.name), ps)
            } else {
                RawTypeV::Sum(
                    Seq::new(
                        data.variants@.len(),
                        |i: int| RawTypeV::Boxed(
                            ident_str(data.name) + "::"@ + ident_str(data.variants@[i].0),
                            ps,
                        ),
                    ),
                )
            }
        },
    }
}

pub open spec fn spec_inst_types(
    ts: Seq<Ty>,
    datas: Seq<Data>,
    res: Seq<(Seq<char>, RawTypeV)>,
) -> Seq<RawTypeV>
    decreases ts,
{
    if ts.len() == 0 {
        Seq::empty()
    } else {
        spec_inst_types(ts.drop_last(), datas, res).push(spec_inst_type(ts.last(), datas, res))
    }
}

pub open spec fn spec_inst_fields(
    fs: Seq<(Ident, Ty)>,
    datas: Seq<Data>,
    res: Seq<(Seq<char>, RawTypeV)>,
) -> Seq<RawTypeV>
    decreases fs,
{
    if fs.len() == 0 {
        Seq::empty()
    } else {
        spec_inst_fields(fs.drop_last(), datas, res).push(
            spec_inst_type(fs.last().1, datas, res),
        )
    }
}

impl Resolver {
    /// The concrete type this resolver binds `name` to; the caller
    /// promises the name is bound.
    #[verifier::loop_isolation(false)]
    pub fn lookup(&self, name: Ident) -> (r: RawType)
        requires
            res_lookup(self.view(), ident_str(name)) is Some,
        ensures
            r.view() == res_lookup(self.view(), ident_str(name)).unwrap(),
    {
        let mut i: usize = 0;
        proof {
            assert(self.view().skip(0) =~= self.view());
        }
        while i < self.entries.len()
            invariant
                0 <= i <= self.entries@.len(),
                res_lookup(self.view(), ident_str(name)) == res_lookup(
                    self.view().skip(i as int),
                    ident_str(name),
                ),
            decreases self.entries@.len() - i,
        {
            let hit = ident_eq(self.entries[i].0, name);
            proof {
                let v = self.view().skip(i as int);
                assert(v.first() == self.view()[i as int]);
                assert(v.drop_first() =~= self.view().skip(i as int + 1));
            }
            if hit {
                return self.entries[i].1.clone();
            }
            i += 1;
        }
        proof {
            assert(self.view().skip(i as int).len() == 0);
            assert(false);
        }
        vstd::pervasive::unreached()
    }
}

/// The zero-based position of the first field carrying `name`.
pub open spec fn spec_field_index(fs: Seq<(Ident, Ty)>, name: Seq<char>) -> int
    decreases fs,
{
    if fs.len() == 0 {
        0
    } else if ident_str(fs.first().0) == name {
        0
    } else {
        1 + spec_field_index(fs.drop_first(), name)
    }
}

/// The first-match position is a match, and nothing before it matches.
pub proof fn lemma_field_index(fs: Seq<(Ident, Ty)>, name: Seq<char>)
    requires
        hir::has_field(fs, name),
    ensures
        0 <= spec_field_index(fs, name) < fs.len(),
        ident_str(fs[spec_field_index(fs, name)].0) == name,
        forall|j: int| 0 <= j < spec_field_index(fs, name) ==> ident_str(
            (#[trigger] fs[j]).0,
        ) != name,
    decreases fs,
{
    if fs.len() > 0 && ident_str(fs.first().0) != name {
        assert(forall|i: int|
            0 <= i < fs.drop_first().len() ==> (#[trigger] fs.drop_first()[i]) == fs[i + 1]);
        let w = choose|i: int| 0 <= i < fs.len() && ident_str((#[trigger] fs[i]).0) == name;
        assert(fs.drop_first()[w - 1] == fs[w]);
        lemma_field_index(fs.drop_first(), name);
        let k = spec_field_index(fs, name);
        assert forall|j: int| 0 <= j < k implies ident_str((#[trigger] fs[j]).0) != name by {
            if j > 0 {
                assert(fs[j] == fs.drop_first()[j - 1]);
            }
        }
    }
}

/// Find the position of the first field carrying `name`; the caller
/// promises some field does.
#[verifier::loop_isolation(false)]
pub fn field_index(fields: &Vec<(Ident, Ty)>, name: Ident) -> (r: usize)
    requires
        hir::has_field(fields@, ident_str(name)),
    ensures
        r == spec_field_index(fields@, ident_str(name)),
        r < fields@.len(),
{
    proof {
        lemma_field_index(fields@, ident_str(name));
    }
    let mut i: usize = 0;
    proof {
        assert(fields@.skip(0) =~= fields@);
    }
    while i < fields.len()
        invariant
            0 <= i <= fields@.len(),
            spec_field_index(fields@, ident_str(name)) == i + spec_field_index(
                fields@.skip(i as int),
                ident_str(name),
            ),
            forall|j: int| 0 <= j < i ==> ident_str((#[trigger] fields@[j]).0) != ident_str(name),
        decreases fields@.len() - i,
    {
        let hit = ident_eq(fields[i].0, name);
        proof {
            let v = fields@.skip(i as int);
            assert(v.first() == fields@[i as int]);
            assert(v.drop_first() =~= fields@.skip(i as int + 1));
        }
        if hit {
            return i;
        }
        i += 1;
    }
    proof {
        assert(false);
    }
    vstd::pervasive::unreached()
}

/// The record-shaped field list behind a type, if any: a record type's own
/// fields, or the first variant of a data type standing proxy for one.
pub fn record_fields<'a>(prog: &'a hir::Program, t: &'a Ty) -> (r: Option<&'a Vec<(Ident, Ty)>>)
    ensures
        match r {
            Some(fs) => hir::spec_record_fields(*t, prog.datas@) == Some(fs@),
            None => hir::spec_record_fields(*t, prog.datas@) is None,
        },
{
    match t {
        Ty::Record(fields) => Some(fields),
        Ty::Data(d, _) => {
            if *d < prog.datas.len() && prog.datas[*d].variants.len() > 0 {
                match &prog.datas[*d].variants[0].1 {
                    Ty::Record(fields) => Some(fields),
                    _ => None,
                }
            } else {
                None
            }
        },
        _ => None,
    }
}

/// Substitute concrete types for generic parameters throughout `ty`. The
/// caller promises `ty` well formed with every generic parameter bound by
/// the resolver, so no failure path exists.
#[verifier::loop_isolation(false)]
pub fn instantiate_type(prog: &hir::Program, ty: &Ty, res: &Resolver) -> (r: RawType)
    requires
        hir::ty_wf(*ty, res_dom(res.view()), prog.datas@),
    ensures
        r.view() == spec_inst_type(*ty, prog.datas@, res.view()),
    decreases *ty,
{
    match ty {
        Ty::Primitive(p) => RawType::Primitive(*p),
        Ty::GenParam(x) => {
            proof {
                assert(res_dom(res.view()).contains(ident_str(*x)));
            }
            res.lookup(*x)
        },
        Ty::Tuple(items) => {
            proof {
                assert(decreases_to!(*ty => *items));
            }
            let r = RawType::Product(instantiate_types(prog, items, res));
            proof {
                assert(r.view() =~= spec_inst_type(*ty, prog.datas@, res.view()));
            }
            r
        },
        Ty::Record(fields) => {
            proof {
                assert(decreases_to!(*ty => *fields));
                hir::lemma_field_tys_wf(fields@, res_dom(res.view()), prog.datas@);
            }
            let mut out: Vec<RawType> = Vec::new();
            let mut i: usize = 0;
            proof {
                assert(fields@.subrange(0, 0) =~= Seq::<(Ident, Ty)>::empty());
            }
            while i < fields.len()
                invariant
                    0 <= i <= fields@.len(),
                    raw_types_view(out@) == spec_inst_fields(
                        fields@.subrange(0, i as int),
                        prog.datas@,
                        res.view(),
                    ),
                decreases fields@.len() - i,
            {
                proof {
                    assert(decreases_to!(*fields => fields@));
                    assert(decreases_to!(fields@ => fields@[i as int]));
                    assert(decreases_to!(fields@[i as int] => fields@[i as int].1));
                }
                let c = instantiate_type(prog, &fields[i].1, res);
                proof {
                    let pre = fields@.subrange(0, i as int);
                    let post = fields@.subrange(0, i as int + 1);
                    assert(post.drop_last() =~= pre);
                    assert(post.last() == fields@[i as int]);
                    assert(out@.push(c).drop_last() =~= out@);
                }
                out.push(c);
                i += 1;
            }
            proof {
                assert(fields@.subrange(0, fields@.len() as int) =~= fields@);
            }
            let r = RawType::Product(out);
            proof {
                assert(r.view() =~= spec_inst_type(*ty, prog.datas@, res.view()));
            }
            r
        },
        Ty::List(item) => {
            proof {
                assert(decreases_to!(*ty => *item));
            }
            RawType::List(Box::new(instantiate_type(prog, item, res)))
        },
        Ty::Func(i, o) => {
            proof {
                assert(decreases_to!(*ty => *i));
                assert(decreases_to!(*ty => *o));
            }
            RawType::Func(
                Box::new(instantiate_type(prog, i, res)),
                Box::new(instantiate_type(prog, o, res)),
            )
        },
        Ty::Data(d, params) => {
            proof {
                assert(decreases_to!(*ty => *params));
            }
            let ps = instantiate_types(prog, params, res);
            let data = &prog.datas[*d];
            if data.variants.len() == 1 {
                let r = RawType::Boxed(data.name, ps);
                proof {
                    assert(*ty == Ty::Data(*d, *params));
                    assert(*data == prog.datas@[*d as int]);
                    assert(r.view() =~= spec_inst_type(*ty, prog.datas@, res.view()));
                }
                r
            } else {
                let ghost full = spec_inst_type(*ty, prog.datas@, res.view())->Sum_0;
                let mut out: Vec<RawType> = Vec::new();
                let mut i: usize = 0;
                while i < data.variants.len()
                    invariant
                        0 <= i <= data.variants@.len(),
                        raw_types_view(out@) =~= full.subrange(0, i as int),
                    decreases data.variants@.len() - i,
                {
                    let mut s = ident_string(data.name);
                    str_append(&mut s, "::");
                    let vn = ident_string(data.variants[i].0);
                    str_append(&mut s, vn.as_str());
                    let mangled = new_ident(s);
                    let c = RawType::Boxed(mangled, clone_raw_types(&ps));
                    proof {
                        assert(c.view() == full[i as int]);
                        assert(out@.push(c).drop_last() =~= out@);
                        assert(raw_types_view(out@.push(c)) =~= full.subrange(0, i as int + 1));
                    }
                    out.push(c);
                    i += 1;
                }
                let r = RawType::Sum(out);
                proof {
                    assert(full.subrange(0, data.variants@.len() as int) =~= full);
                    assert(r.view() =~= spec_inst_type(*ty, prog.datas@, res.view()));
                }
                r
            }
        },
    }
}

/// Substitute concrete types throughout each element of `tys`.
#[verifier::loop_isolation(false)]
pub fn instantiate_types(prog: &hir::Program, tys: &Vec<Ty>, res: &Resolver) -> (r: Vec<RawType>)
    requires
        hir::tys_wf(tys@, res_dom(res.view()), prog.datas@),
    ensures
        raw_types_view(r@) == spec_inst_types(tys@, prog.datas@, res.view()),
        r@.len() == tys@.len(),
    decreases *tys,
{
    proof {
        hir::lemma_tys_wf(tys@, res_dom(res.view()), prog.datas@);
    }
    let mut out: Vec<RawType> = Vec::new();
    let mut i: usize = 0;
    proof {
        assert(tys@.subrange(0, 0) =~= Seq::<Ty>::empty());
    }
    while i < tys.len()
        invariant
            0 <= i <= tys@.len(),
            out@.len() == i,
            raw_types_view(out@) == spec_inst_types(
                tys@.subrange(0, i as int),
                prog.datas@,
                res.view(),
            ),
        decreases tys@.len() - i,
    {
        proof {
            assert(decreases_to!(*tys => tys@));
            assert(decreases_to!(tys@ => tys@[i as int]));
        }
        let c = instantiate_type(prog, &tys[i], res);
        proof {
            let pre = tys@.subrange(0, i as int);
            let post = tys@.subrange(0, i as int + 1);
            assert(post.drop_last() =~= pre);
            assert(post.last() == tys@[i as int]);
            assert(out@.push(c).drop_last() =~= out@);
        }
        out.push(c);
        i += 1;
    }
    proof {
        assert(tys@.subrange(0, tys@.len() as int) =~= tys@);
    }
    out
}

/// Compiling a pattern to its refutability test. Wildcards and plain
/// bindings need no test; literals are compared exactly; composite shapes
/// test their parts positionally. A single-variant deconstruction passes
/// through to its inner pattern; a multi-variant one first tests the
/// numeric tag, the variant's zero-based declaration index.
pub open spec fn spec_make_matcher(b: TypeBinding, datas: Seq<Data>) -> MatcherV
    decreases b,
{
    match *b.pat {
        Pat::Wildcard => MatcherV::Wildcard,
        Pat::Literal(l) => MatcherV::Exactly(l@),
        Pat::Tuple(items) => MatcherV::Product(spec_matchers(items@, datas)),
        Pat::Record(fields) => MatcherV::Product(spec_matchers_fields(fields@, datas)),
        Pat::List(items) => MatcherV::List(spec_matchers(items@, datas)),
        Pat::ListFront(items, _) => MatcherV::ListFront(spec_matchers(items@, datas)),
        Pat::Deconstruct(d, v, inner) => if datas[d as int].variants@.len() == 1 {
            spec_make_matcher(inner, datas)
        } else {
            MatcherV::Product(
                seq![
                    MatcherV::Exactly(crate::hir::LiteralV::Number(v)),
                    spec_make_matcher(inner, datas),
                ],
            )
        },
    }
}

pub open spec fn spec_matchers(bs: Seq<TypeBinding>, datas: Seq<Data>) -> Seq<MatcherV>
    decreases bs,
{
    if bs.len() == 0 {
        Seq::empty()
    } else {
        spec_matchers(bs.drop_last(), datas).push(spec_make_matcher(bs.last(), datas))
    }
}

pub open spec fn spec_matchers_fields(fs: Seq<(Ident, TypeBinding)>, datas: Seq<Data>) -> Seq<
    MatcherV,
>
    decreases fs,
{
    if fs.len() == 0 {
        Seq::empty()
    } else {
        spec_matchers_fields(fs.drop_last(), datas).push(spec_make_matcher(fs.last().1, datas))
    }
}

/// Compiling a pattern to its binding extractor: the same shape as the
/// matcher, carrying the pattern's own capture name at each node. A
/// single-variant deconstruction passes through to its inner pattern; a
/// multi-variant one wraps the inner extractor beside a discard slot that
/// stands against the tag the matcher tests.
pub open spec fn spec_make_extractor(b: TypeBinding, datas: Seq<Data>) -> ExtractorV
    decreases b,
{
    let own = crate::mir::opt_name_view(b.binding);
    match *b.pat {
        Pat::Wildcard => ExtractorV::Just(own),
        Pat::Literal(_) => ExtractorV::Just(own),
        Pat::Tuple(items) => ExtractorV::Product(own, spec_extractors(items@, datas)),
        Pat::Record(fields) => ExtractorV::Product(own, spec_extractors_fields(fields@, datas)),
        Pat::List(items) => ExtractorV::List(own, spec_extractors(items@, datas)),
        Pat::ListFront(items, tail) => ExtractorV::ListFront(
            own,
            spec_extractors(items@, datas),
            crate::mir::opt_name_view(tail),
        ),
        Pat::Deconstruct(d, _, inner) => if datas[d as int].variants@.len() == 1 {
            spec_make_extractor(inner, datas)
        } else {
            ExtractorV::Product(
                None,
                seq![ExtractorV::Just(None), spec_make_extractor(inner, datas)],
            )
        },
    }
}

pub open spec fn spec_extractors(bs: Seq<TypeBinding>, datas: Seq<Data>) -> Seq<ExtractorV>
    decreases bs,
{
    if bs.len() == 0 {
        Seq::empty()
    } else {
        spec_extractors(bs.drop_last(), datas).push(spec_make_extractor(bs.last(), datas))
    }
}

pub open spec fn spec_extractors_fields(fs: Seq<(Ident, TypeBinding)>, datas: Seq<Data>) -> Seq<
    ExtractorV,
>
    decreases fs,
{
    if fs.len() == 0 {
        Seq::empty()
    } else {
        spec_extractors_fields(fs.drop_last(), datas).push(
            spec_make_extractor(fs.last().1, datas),
        )
    }
}

impl TypeBinding {
    /// Build this pattern's refutability test.
    #[verifier::loop_isolation(false)]
    pub fn make_matcher(&self, prog: &hir::Program) -> (r: Matcher)
        requires
            hir::binding_wf(*self, prog.datas@),
        ensures
            r.view() == spec_make_matcher(*self, prog.datas@),
        decreases *self,
    {
        match &*self.pat {
            Pat::Wildcard => Matcher::Wildcard,
            Pat::Literal(l) => Matcher::Exactly(*l),
            Pat::Tuple(items) => {
                proof {
                    assert(decreases_to!(*self => *self.pat));
                    hir::lemma_bindings_wf(items@, prog.datas@);
                }
                let ms = make_matchers(prog, items);
                let r = Matcher::Product(ms);
                proof {
                    assert(r.view() =~= spec_make_matcher(*self, prog.datas@));
                }
                r
            },
            Pat::Record(fields) => {
                proof {
                    assert(decreases_to!(*self => *self.pat));
                    assert(decreases_to!(*self.pat => *fields));
                    hir::lemma_field_bindings_wf(fields@, prog.datas@);
                }
                let mut out: Vec<Matcher> = Vec::new();
                let mut i: usize = 0;
                proof {
                    assert(fields@.subrange(0, 0) =~= Seq::<(Ident, TypeBinding)>::empty());
                }
                while i < fields.len()
                    invariant
                        0 <= i <= fields@.len(),
                        crate::mir::matchers_view(out@) == spec_matchers_fields(
                            fields@.subrange(0, i as int),
                            prog.datas@,
                        ),
                    decreases fields@.len() - i,
                {
                    proof {
                        assert(decreases_to!(*fields => fields@));
                        assert(decreases_to!(fields@ => fields@[i as int]));
                        assert(decreases_to!(fields@[i as int] => fields@[i as int].1));
                    }
                    let c = fields[i].1.make_matcher(prog);
                    proof {
                        let pre = fields@.subrange(0, i as int);
                        let post = fields@.subrange(0, i as int + 1);
                        assert(post.drop_last() =~= pre);
                        assert(post.last() == fields@[i as int]);
                        assert(out@.push(c).drop_last() =~= out@);
                    }
                    out.push(c);
                    i += 1;
                }
                proof {
                    assert(fields@.subrange(0, fields@.len() as int) =~= fields@);
                }
                let r = Matcher::Product(out);
                proof {
                    assert(r.view() =~= spec_make_matcher(*self, prog.datas@));
                }
                r
            },
            Pat::List(items) => {
                proof {
                    assert(decreases_to!(*self => *self.pat));
                    hir::lemma_bindings_wf(items@, prog.datas@);
                }
                let ms = make_matchers(prog, items);
                let r = Matcher::List(ms);
                proof {
                    assert(r.view() =~= spec_make_matcher(*self, prog.datas@));
                }
                r
            },
            Pat::ListFront(items, _) => {
                proof {
                    assert(decreases_to!(*self => *self.pat));
                    hir::lemma_bindings_wf(items@, prog.datas@);
                }
                let ms = make_matchers(prog, items);
                let r = Matcher::ListFront(ms);
                proof {
                    assert(r.view() =~= spec_make_matcher(*self, prog.datas@));
                }
                r
            },
            Pat::Deconstruct(d, v, inner) => {
                proof {
                    assert(decreases_to!(*self => *self.pat));
                    assert(decreases_to!(*self.pat => *inner));
                }
                if prog.datas[*d].variants.len() == 1 {
                    inner.make_matcher(prog)
                } else {
                    let m = inner.make_matcher(prog);
                    let mut elems: Vec<Matcher> = Vec::new();
                    elems.push(Matcher::Exactly(crate::hir::Literal::Number(*v)));
                    elems.push(m);
                    proof {
                        let s = elems@;
                        let s1 = s.drop_last();
                        assert(s1.drop_last() =~= Seq::<Matcher>::empty());
                        assert(s1.last() == s[0]);
                        assert(crate::mir::matchers_view(s1.drop_last())
                            =~= Seq::<MatcherV>::empty());
                        assert(crate::mir::matchers_view(s1) =~= seq![s[0].view()]);
                        assert(crate::mir::matchers_view(s) =~= seq![s[0].view(), s[1].view()]);
                    }
                    let r = Matcher::Product(elems);
                    proof {
                        assert(r.view() =~= spec_make_matcher(*self, prog.datas@));
                    }
                    r
                }
            },
        }
    }

    /// Build this pattern's binding extractor.
    #[verifier::loop_isolation(false)]
    pub fn make_extractor(&self, prog: &hir::Program) -> (r: Extractor)
        requires
            hir::binding_wf(*self, prog.datas@),
        ensures
            r.view() == spec_make_extractor(*self, prog.datas@),
        decreases *self,
    {
        match &*self.pat {
            Pat::Wildcard => Extractor::Just(self.binding),
            Pat::Literal(_) => Extractor::Just(self.binding),
            Pat::Tuple(items) => {
                proof {
                    assert(decreases_to!(*self => *self.pat));
                    hir::lemma_bindings_wf(items@, prog.datas@);
                }
                let xs = make_extractors(prog, items);
                let r = Extractor::Product(self.binding, xs);
                proof {
                    assert(r.view() =~= spec_make_extractor(*self, prog.datas@));
                }
                r
            },
            Pat::Record(fields) => {
                proof {
                    assert(decreases_to!(*self => *self.pat));
                    assert(decreases_to!(*self.pat => *fields));
                    hir::lemma_field_bindings_wf(fields@, prog.datas@);
                }
                let mut out: Vec<Extractor> = Vec::new();
                let mut i: usize = 0;
                proof {
                    assert(fields@.subrange(0, 0) =~= Seq::<(Ident, TypeBinding)>::empty());
                }
                while i < fields.len()
                    invariant
                        0 <= i <= fields@.len(),
                        crate::mir::extractors_view(out@) == spec_extractors_fields(
                            fields@.subrange(0, i as int),
                            prog.datas@,
                        ),
                    decreases fields@.len() - i,
                {
                    proof {
                        assert(decreases_to!(*fields => fields@));
                        assert(decreases_to!(fields@ => fields@[i as int]));
                        assert(decreases_to!(fields@[i as int] => fields@[i as int].1));
                    }
                    let c = fields[i].1.make_extractor(prog);
                    proof {
                        let pre = fields@.subrange(0, i as int);
                        let post = fields@.subrange(0, i as int + 1);
                        assert(post.drop_last() =~= pre);
                        assert(post.last() == fields@[i as int]);
                        assert(out@.push(c).drop_last() =~= out@);
                    }
                    out.push(c);
                    i += 1;
                }
                proof {
                    assert(fields@.subrange(0, fields@.len() as int) =~= fields@);
                }
                let r = Extractor::Product(self.binding, out);
                proof {
                    assert(r.view() =~= spec_make_extractor(*self, prog.datas@));
                }
                r
            },
            Pat::List(items) => {
                proof {
                    assert(decreases_to!(*self => *self.pat));
                    hir::lemma_bindings_wf(items@, prog.datas@);
                }
                let xs = make_extractors(prog, items);
                let r = Extractor::List(self.binding, xs);
                proof {
                    assert(r.view() =~= spec_make_extractor(*self, prog.datas@));
                }
                r
            },
            Pat::ListFront(items, tail) => {
                proof {
                    assert(decreases_to!(*self => *self.pat));
                    hir::lemma_bindings_wf(items@, prog.datas@);
                }
                let xs = make_extractors(prog, items);
                let r = Extractor::ListFront(self.binding, xs, *tail);
                proof {
                    assert(r.view() =~= spec_make_extractor(*self, prog.datas@));
                }
                r
            },
            Pat::Deconstruct(d, _, inner) => {
                proof {
                    assert(decreases_to!(*self => *self.pat));
                    assert(decreases_to!(*self.pat => *inner));
                }
                if prog.datas[*d].variants.len() == 1 {
                    inner.make_extractor(prog)
                } else {
                    let x = inner.make_extractor(prog);
                    let mut elems: Vec<Extractor> = Vec::new();
                    elems.push(Extractor::Just(None));
                    elems.push(x);
                    proof {
                        let s = elems@;
                        let s1 = s.drop_last();
                        assert(s1.drop_last() =~= Seq::<Extractor>::empty());
                        assert(s1.last() == s[0]);
                        assert(crate::mir::extractors_view(s1.drop_last())
                            =~= Seq::<ExtractorV>::empty());
                        assert(crate::mir::extractors_view(s1) =~= seq![s[0].view()]);
                        assert(crate::mir::extractors_view(s) =~= seq![s[0].view(), s[1].view()]);
                    }
                    let r = Extractor::Product(None, elems);
                    proof {
                        assert(r.view() =~= spec_make_extractor(*self, prog.datas@));
                    }
                    r
                }
            },
        }
    }
}

/// Build the refutability tests of each pattern in `bs`.
#[verifier::loop_isolation(false)]
fn make_matchers(prog: &hir::Program, bs: &Vec<TypeBinding>) -> (r: Vec<Matcher>)
    requires
        hir::bindings_wf(bs@, prog.datas@),
    ensures
        crate::mir::matchers_view(r@) == spec_matchers(bs@, prog.datas@),
    decreases *bs,
{
    proof {
        hir::lemma_bindings_wf(bs@, prog.datas@);
    }
    let mut out: Vec<Matcher> = Vec::new();
    let mut i: usize = 0;
    proof {
        assert(bs@.subrange(0, 0) =~= Seq::<TypeBinding>::empty());
    }
    while i < bs.len()
        invariant
            0 <= i <= bs@.len(),
            crate::mir::matchers_view(out@) == spec_matchers(
                bs@.subrange(0, i as int),
                prog.datas@,
            ),
        decreases bs@.len() - i,
    {
        proof {
            assert(decreases_to!(*bs => bs@));
            assert(decreases_to!(bs@ => bs@[i as int]));
        }
        let c = bs[i].make_matcher(prog);
        proof {
            let pre = bs@.subrange(0, i as int);
            let post = bs@.subrange(0, i as int + 1);
            assert(post.drop_last() =~= pre);
            assert(post.last() == bs@[i as int]);
            assert(out@.push(c).drop_last() =~= out@);
        }
        out.push(c);
        i += 1;
    }
    proof {
        assert(bs@.subrange(0, bs@.len() as int) =~= bs@);
    }
    out
}

/// Build the binding extractors of each pattern in `bs`.
#[verifier::loop_isolation(false)]
fn make_extractors(prog: &hir::Program, bs: &Vec<TypeBinding>) -> (r: Vec<Extractor>)
    requires
        hir::bindings_wf(bs@, prog.datas@),
    ensures
        crate::mir::extractors_view(r@) == spec_extractors(bs@, prog.datas@),
    decreases *bs,
{
    proof {
        hir::lemma_bindings_wf(bs@, prog.datas@);
    }
    let mut out: Vec<Extractor> = Vec::new();
    let mut i: usize = 0;
    proof {
        assert(bs@.subrange(0, 0) =~= Seq::<TypeBinding>::empty());
    }
    while i < bs.len()
        invariant
            0 <= i <= bs@.len(),
            crate::mir::extractors_view(out@) == spec_extractors(
                bs@.subrange(0, i as int),
                prog.datas@,
            ),
        decreases bs@.len() - i,
    {
        proof {
            assert(decreases_to!(*bs => bs@));
            assert(decreases_to!(bs@ => bs@[i as int]));
        }
        let c = bs[i].make_extractor(prog);
        proof {
            let pre = bs@.subrange(0, i as int);
            let post = bs@.subrange(0, i as int + 1);
            assert(post.drop_last() =~= pre);
            assert(post.last() == bs@[i as int]);
            assert(out@.push(c).drop_last() =~= out@);
        }
        out.push(c);
        i += 1;
    }
    proof {
        assert(bs@.subrange(0, bs@.len() as int) =~= bs@);
    }
    out
}

/// Every name a pattern binds, in pre-order: the node's own capture, a
/// tail capture next, then sub-patterns in declared order.
pub open spec fn spec_binding_idents(b: TypeBinding) -> Seq<Seq<char>>
    decreases b,
{
    crate::mir::opt_name_seq(crate::mir::opt_name_view(b.binding)) + match *b.pat {
        Pat::Wildcard => Seq::empty(),
        Pat::Literal(_) => Seq::empty(),
        Pat::Tuple(items) => spec_bindings_list(items@),
        Pat::Record(fields) => spec_bindings_fields(fields@),
        Pat::List(items) => spec_bindings_list(items@),
        Pat::ListFront(items, tail) => crate::mir::opt_name_seq(crate::mir::opt_name_view(tail))
            + spec_bindings_list(items@),
        Pat::Deconstruct(_, _, inner) => spec_binding_idents(inner),
    }
}

pub open spec fn spec_bindings_list(bs: Seq<TypeBinding>) -> Seq<Seq<char>>
    decreases bs,
{
    if bs.len() == 0 {
        Seq::empty()
    } else {
        spec_bindings_list(bs.drop_last()) + spec_binding_idents(bs.last())
    }
}

pub open spec fn spec_bindings_fields(fs: Seq<(Ident, TypeBinding)>) -> Seq<Seq<char>>
    decreases fs,
{
    if fs.len() == 0 {
        Seq::empty()
    } else {
        spec_bindings_fields(fs.drop_last()) + spec_binding_idents(fs.last().1)
    }
}

impl TypeBinding {
    /// Append every name this pattern binds, in pre-order.
    #[verifier::loop_isolation(false)]
    fn collect_idents(&self, out: &mut Vec<Ident>)
        ensures
            crate::mir::idents_view(final(out)@) == crate::mir::idents_view(old(out)@)
                + spec_binding_idents(*self),
        decreases *self,
    {
        let ghost base = out@;
        if let Some(this) = &self.binding {
            out.push(*this);
        }
        proof {
            assert(crate::mir::idents_view(out@) =~= crate::mir::idents_view(base)
                + crate::mir::opt_name_seq(crate::mir::opt_name_view(self.binding)));
        }
        let ghost head = out@;
        match &*self.pat {
            Pat::Wildcard => (),
            Pat::Literal(_) => (),
            Pat::Tuple(items) => {
                proof {
                    assert(decreases_to!(*self => *self.pat));
                }
                collect_idents_list(items, out);
                proof {
                    assert(crate::mir::idents_view(out@) =~= crate::mir::idents_view(base)
                        + spec_binding_idents(*self));
                }
            },
            Pat::Record(fields) => {
                proof {
                    assert(decreases_to!(*self => *self.pat));
                    assert(decreases_to!(*self.pat => *fields));
                }
                let mut i: usize = 0;
                proof {
                    assert(fields@.subrange(0, 0) =~= Seq::<(Ident, TypeBinding)>::empty());
                    assert(crate::mir::idents_view(out@) =~= crate::mir::idents_view(head)
                        + spec_bindings_fields(fields@.subrange(0, 0)));
                }
                while i < fields.len()
                    invariant
                        0 <= i <= fields@.len(),
                        crate::mir::idents_view(out@) == crate::mir::idents_view(head)
                            + spec_bindings_fields(fields@.subrange(0, i as int)),
                    decreases fields@.len() - i,
                {
                    proof {
                        assert(decreases_to!(*fields => fields@));
                        assert(decreases_to!(fields@ => fields@[i as int]));
                        assert(decreases_to!(fields@[i as int] => fields@[i as int].1));
                    }
                    fields[i].1.collect_idents(out);
                    proof {
                        let pre = fields@.subrange(0, i as int);
                        let post = fields@.subrange(0, i as int + 1);
                        assert(post.drop_last() =~= pre);
                        assert(post.last() == fields@[i as int]);
                        assert(crate::mir::idents_view(out@) =~= crate::mir::idents_view(head)
                            + spec_bindings_fields(post));
                    }
                    i += 1;
                }
                proof {
                    assert(fields@.subrange(0, fields@.len() as int) =~= fields@);
                    assert(crate::mir::idents_view(out@) =~= crate::mir::idents_view(base)
                        + spec_binding_idents(*self));
                }
            },
            Pat::List(items) => {
                proof {
                    assert(decreases_to!(*self => *self.pat));
                }
                collect_idents_list(items, out);
                proof {
                    assert(crate::mir::idents_view(out@) =~= crate::mir::idents_view(base)
                        + spec_binding_idents(*self));
                }
            },
            Pat::ListFront(items, tail) => {
                proof {
                    assert(decreases_to!(*self => *self.pat));
                }
                if let Some(t) = tail {
                    out.push(*t);
                }
                proof {
                    assert(crate::mir::idents_view(out@) =~= crate::mir::idents_view(head)
                        + crate::mir::opt_name_seq(crate::mir::opt_name_view(*tail)));
                }
                collect_idents_list(items, out);
                proof {
                    assert(crate::mir::idents_view(out@) =~= crate::mir::idents_view(base)
                        + spec_binding_idents(*self));
                }
            },
            Pat::Deconstruct(_, _, inner) => {
                proof {
                    assert(decreases_to!(*self => *self.pat));
                    assert(decreases_to!(*self.pat => *inner));
                }
                inner.collect_idents(out);
                proof {
                    assert(crate::mir::idents_view(out@) =~= crate::mir::idents_view(base)
                        + spec_binding_idents(*self));
                }
            },
        }
    }

    /// Every name this pattern binds, in pre-order.
    pub fn binding_idents(&self) -> (r: Vec<Ident>)
        ensures
            crate::mir::idents_view(r@) == spec_binding_idents(*self),
    {
        let mut out: Vec<Ident> = Vec::new();
        proof {
            assert(crate::mir::idents_view(out@) =~= Seq::<Seq<char>>::empty());
        }
        self.collect_idents(&mut out);
        proof {
            assert(crate::mir::idents_view(out@) =~= spec_binding_idents(*self));
        }
        out
    }
}

/// Append every name each pattern in `bs` binds, in order.
#[verifier::loop_isolation(false)]
fn collect_idents_list(bs: &Vec<TypeBinding>, out: &mut Vec<Ident>)
    ensures
        crate::mir::idents_view(final(out)@) == crate::mir::idents_view(old(out)@)
            + spec_bindings_list(bs@),
    decreases *bs,
{
    let ghost base = out@;
    let mut i: usize = 0;
    proof {
        assert(bs@.subrange(0, 0) =~= Seq::<TypeBinding>::empty());
        assert(crate::mir::idents_view(out@) =~= crate::mir::idents_view(base)
            + spec_bindings_list(bs@.subrange(0, 0)));
    }
    while i < bs.len()
        invariant
            0 <= i <= bs@.len(),
            crate::mir::idents_view(out@) == crate::mir::idents_view(base) + spec_bindings_list(
                bs@.subrange(0, i as int),
            ),
        decreases bs@.len() - i,
    {
        proof {
            assert(decreases_to!(*bs => bs@));
            assert(decreases_to!(bs@ => bs@[i as int]));
        }
        bs[i].collect_idents(out);
        proof {
            let pre = bs@.subrange(0, i as int);
            let post = bs@.subrange(0, i as int + 1);
            assert(post.drop_last() =~= pre);
            assert(post.last() == bs@[i as int]);
            assert(crate::mir::idents_view(out@) =~= crate::mir::idents_view(base)
                + spec_bindings_list(post));
        }
        i += 1;
    }
    proof {
        assert(bs@.subrange(0, bs@.len() as int) =~= bs@);
    }
}

/// Whether some element of `v` is the same interned name as `x`.
#[verifier::loop_isolation(false)]
pub fn contains_ident(v: &Vec<Ident>, x: Ident) -> (r: bool)
    ensures
        r <==> crate::mir::idents_view(v@).contains(ident_str(x)),
{
    let mut i: usize = 0;
    while i < v.len()
        invariant
            0 <= i <= v@.len(),
            forall|j: int| 0 <= j < i ==> ident_str(v@[j]) != ident_str(x),
        decreases v@.len() - i,
    {
        if ident_eq(v[i], x) {
            proof {
                assert(crate::mir::idents_view(v@)[i as int] == ident_str(x));
            }
            return true;
        }
        i += 1;
    }
    proof {
        assert(forall|j: int|
            0 <= j < v@.len() ==> crate::mir::idents_view(v@)[j] == ident_str(#[trigger] v@[j]));
    }
    false
}

/// The free-variable analysis: walk an expression under a stack of
/// locally bound names, appending to `env` each name referenced by value
/// that neither the scope nor `env` already holds, in first-occurrence
/// order. Closures contribute their own free variables minus the names
/// they bind themselves; globals, literals and intrinsics contribute none.
pub open spec fn spec_get_env_inner(
    e: TypeExpr,
    scope: Seq<Seq<char>>,
    env: Seq<Seq<char>>,
) -> Seq<Seq<char>>
    decreases e,
{
    match *e.expr {
        hir::Expr::Literal(_) => env,
        hir::Expr::Global(_, _) => env,
        hir::Expr::Intrinsic(_, args) => spec_get_env_list(args@, scope, env),
        hir::Expr::Local(x) => if !scope.contains(ident_str(x)) && !env.contains(ident_str(x)) {
            env.push(ident_str(x))
        } else {
            env
        },
        hir::Expr::Unary(_, a) => spec_get_env_inner(a, scope, env),
        hir::Expr::Binary(_, a, b) => spec_get_env_inner(
            b,
            scope,
            spec_get_env_inner(a, scope, env),
        ),
        hir::Expr::Tuple(items) => spec_get_env_list(items@, scope, env),
        hir::Expr::Record(fields) => spec_get_env_fields(fields@, scope, env),
        hir::Expr::List(items) => spec_get_env_list(items@, scope, env),
        hir::Expr::Apply(f, arg) => spec_get_env_inner(
            arg,
            scope,
            spec_get_env_inner(f, scope, env),
        ),
        hir::Expr::Access(record, _) => spec_get_env_inner(record, scope, env),
        hir::Expr::Update(record, field, value) => spec_get_env_inner(
            value,
            scope.push(ident_str(field)),
            spec_get_env_inner(record, scope, env),
        ),
        hir::Expr::Func(binding, body) => spec_push_free(
            spec_get_env_inner(body, Seq::empty(), Seq::empty()),
            scope,
            spec_binding_idents(binding),
            env,
        ),
        hir::Expr::Match(pred, arms) => spec_get_env_arms(
            arms@,
            scope,
            spec_get_env_inner(pred, scope, env),
        ),
        hir::Expr::Constructor(_, _, inner) => spec_get_env_inner(inner, scope, env),
    }
}

pub open spec fn spec_get_env_list(
    es: Seq<TypeExpr>,
    scope: Seq<Seq<char>>,
    env: Seq<Seq<char>>,
) -> Seq<Seq<char>>
    decreases es,
{
    if es.len() == 0 {
        env
    } else {
        spec_get_env_inner(es.last(), scope, spec_get_env_list(es.drop_last(), scope, env))
    }
}

pub open spec fn spec_get_env_fields(
    fs: Seq<(Ident, TypeExpr)>,
    scope: Seq<Seq<char>>,
    env: Seq<Seq<char>>,
) -> Seq<Seq<char>>
    decreases fs,
{
    if fs.len() == 0 {
        env
    } else {
        spec_get_env_inner(fs.last().1, scope, spec_get_env_fields(fs.drop_last(), scope, env))
    }
}

pub open spec fn spec_get_env_arms(
    arms: Seq<(TypeBinding, TypeExpr)>,
    scope: Seq<Seq<char>>,
    env: Seq<Seq<char>>,
) -> Seq<Seq<char>>
    decreases arms,
{
    if arms.len() == 0 {
        env
    } else {
        spec_get_env_inner(
            arms.last().1,
            scope + spec_binding_idents(arms.last().0),
            spec_get_env_arms(arms.drop_last(), scope, env),
        )
    }
}

/// Push each of `names`, in order, that is bound neither by the scope nor
/// by `bs` and not yet present in `env`.
pub open spec fn spec_push_free(
    names: Seq<Seq<char>>,
    scope: Seq<Seq<char>>,
    bs: Seq<Seq<char>>,
    env: Seq<Seq<char>>,
) -> Seq<Seq<char>>
    decreases names,
{
    if names.len() == 0 {
        env
    } else {
        let prev = spec_push_free(names.drop_last(), scope, bs, env);
        let n = names.last();
        if !scope.contains(n) && !bs.contains(n) && !prev.contains(n) {
            prev.push(n)
        } else {
            prev
        }
    }
}

impl TypeExpr {
    /// Walk this expression, recording in `env` every name it references
    /// by value that is bound neither in `scope` nor already recorded.
    /// The scope stack comes back exactly as it was.
    #[verifier::loop_isolation(false)]
    pub fn get_env_inner(&self, scope: &mut Vec<Ident>, env: &mut Vec<Ident>)
        ensures
            final(scope)@ == old(scope)@,
            crate::mir::idents_view(final(env)@) == spec_get_env_inner(
                *self,
                crate::mir::idents_view(old(scope)@),
                crate::mir::idents_view(old(env)@),
            ),
        decreases *self, 0int,
    {
        let ghost scope0 = scope@;
        let ghost env0 = env@;
        match &*self.expr {
            hir::Expr::Literal(_) => (),
            hir::Expr::Global(_, _) => (),
            hir::Expr::Local(x) => {
                let in_scope = contains_ident(scope, *x);
                let in_env = contains_ident(env, *x);
                if !in_scope && !in_env {
                    env.push(*x);
                    proof {
                        assert(crate::mir::idents_view(env@) =~= crate::mir::idents_view(
                            env0,
                        ).push(ident_str(*x)));
                    }
                }
            },
            hir::Expr::Intrinsic(_, args) => {
                proof {
                    assert(decreases_to!(*self => *self.expr));
                    assert(decreases_to!(*self.expr => *args));
                }
                get_env_list(args, scope, env);
            },
            hir::Expr::Unary(_, a) => {
                proof {
                    assert(decreases_to!(*self => *self.expr));
                    assert(decreases_to!(*self.expr => *a));
                }
                a.get_env_inner(scope, env);
            },
            hir::Expr::Binary(_, a, b) => {
                proof {
                    assert(decreases_to!(*self => *self.expr));
                    assert(decreases_to!(*self.expr => *a));
                    assert(decreases_to!(*self.expr => *b));
                }
                a.get_env_inner(scope, env);
                b.get_env_inner(scope, env);
            },
            hir::Expr::Tuple(items) => {
                proof {
                    assert(decreases_to!(*self => *self.expr));
                    assert(decreases_to!(*self.expr => *items));
                }
                get_env_list(items, scope, env);
            },
            hir::Expr::Record(fields) => {
                proof {
                    assert(decreases_to!(*self => *self.expr));
                    assert(decreases_to!(*self.expr => *fields));
                }
                let mut i: usize = 0;
                proof {
                    assert(fields@.subrange(0, 0) =~= Seq::<(Ident, TypeExpr)>::empty());
                }
                while i < fields.len()
                    invariant
                        0 <= i <= fields@.len(),
                        scope@ == scope0,
                        crate::mir::idents_view(env@) == spec_get_env_fields(
                            fields@.subrange(0, i as int),
                            crate::mir::idents_view(scope0),
                            crate::mir::idents_view(env0),
                        ),
                    decreases fields@.len() - i,
                {
                    proof {
                        assert(decreases_to!(*fields => fields@));
                        assert(decreases_to!(fields@ => fields@[i as int]));
                        assert(decreases_to!(fields@[i as int] => fields@[i as int].1));
                    }
                    fields[i].1.get_env_inner(scope, env);
                    proof {
                        let pre = fields@.subrange(0, i as int);
                        let post = fields@.subrange(0, i as int + 1);
                        assert(post.drop_last() =~= pre);
                        assert(post.last() == fields@[i as int]);
                    }
                    i += 1;
                }
                proof {
                    assert(fields@.subrange(0, fields@.len() as int) =~= fields@);
                }
            },
            hir::Expr::List(items) => {
                proof {
                    assert(decreases_to!(*self => *self.expr));
                    assert(decreases_to!(*self.expr => *items));
                }
                get_env_list(items, scope, env);
            },
            hir::Expr::Apply(f, arg) => {
                proof {
                    assert(decreases_to!(*self => *self.expr));
                    assert(decreases_to!(*self.expr => *f));
                    assert(decreases_to!(*self.expr => *arg));
                }
                f.get_env_inner(scope, env);
                arg.get_env_inner(scope, env);
            },
            hir::Expr::Access(record, _) => {
                proof {
                    assert(decreases_to!(*self => *self.expr));
                    assert(decreases_to!(*self.expr => *record));
                }
                record.get_env_inner(scope, env);
            },
            hir::Expr::Update(record, field, value) => {
                proof {
                    assert(decreases_to!(*self => *self.expr));
                    assert(decreases_to!(*self.expr => *record));
                    assert(decreases_to!(*self.expr => *value));
                }
                record.get_env_inner(scope, env);
                scope.push(*field);
                proof {
                    assert(crate::mir::idents_view(scope@) =~= crate::mir::idents_view(
                        scope0,
                    ).push(ident_str(*field)));
                }
                value.get_env_inner(scope, env);
                scope.pop();
                proof {
                    assert(scope@ =~= scope0);
                }
            },
            hir::Expr::Func(binding, body) => {
                proof {
                    assert(decreases_to!(*self => *self.expr));
                    assert(decreases_to!(*self.expr => *body));
                }
                let body_env = body.get_env();
                let bindings = binding.binding_idents();
                let ghost names = crate::mir::idents_view(body_env@);
                let mut i: usize = 0;
                proof {
                    assert(names.subrange(0, 0) =~= Seq::<Seq<char>>::empty());
                }
                while i < body_env.len()
                    invariant
                        0 <= i <= body_env@.len(),
                        scope@ == scope0,
                        crate::mir::idents_view(env@) == spec_push_free(
                            names.subrange(0, i as int),
                            crate::mir::idents_view(scope0),
                            spec_binding_idents(*binding),
                            crate::mir::idents_view(env0),
                        ),
                    decreases body_env@.len() - i,
                {
                    let id = body_env[i];
                    let in_scope = contains_ident(scope, id);
                    let in_bs = contains_ident(&bindings, id);
                    let in_env = contains_ident(env, id);
                    let ghost envc = env@;
                    if !in_scope && !in_bs && !in_env {
                        env.push(id);
                        proof {
                            assert(crate::mir::idents_view(env@) =~= crate::mir::idents_view(
                                envc,
                            ).push(ident_str(id)));
                        }
                    }
                    proof {
                        let pre = names.subrange(0, i as int);
                        let post = names.subrange(0, i as int + 1);
                        assert(post.drop_last() =~= pre);
                        assert(post.last() == names[i as int]);
                        assert(names[i as int] == ident_str(body_env@[i as int]));
                    }
                    i += 1;
                }
                proof {
                    assert(names.subrange(0, names.len() as int) =~= names);
                }
            },
            hir::Expr::Match(pred, arms) => {
                proof {
                    assert(decreases_to!(*self => *self.expr));
                    assert(decreases_to!(*self.expr => *pred));
                    assert(decreases_to!(*self.expr => *arms));
                }
                pred.get_env_inner(scope, env);
                let ghost envp = env@;
                let mut i: usize = 0;
                proof {
                    assert(arms@.subrange(0, 0) =~= Seq::<(TypeBinding, TypeExpr)>::empty());
                }
                while i < arms.len()
                    invariant
                        0 <= i <= arms@.len(),
                        scope@ == scope0,
                        crate::mir::idents_view(env@) == spec_get_env_arms(
                            arms@.subrange(0, i as int),
                            crate::mir::idents_view(scope0),
                            crate::mir::idents_view(envp),
                        ),
                    decreases arms@.len() - i,
                {
                    proof {
                        assert(decreases_to!(*arms => arms@));
                        assert(decreases_to!(arms@ => arms@[i as int]));
                        assert(decreases_to!(arms@[i as int] => arms@[i as int].1));
                    }
                    let mut bs = arms[i].0.binding_idents();
                    let ghost bsv = bs@;
                    let scope_len = scope.len();
                    scope.append(&mut bs);
                    proof {
                        assert(crate::mir::idents_view(scope@) =~= crate::mir::idents_view(
                            scope0,
                        ) + crate::mir::idents_view(bsv));
                        assert(crate::mir::idents_view(scope@) =~= crate::mir::idents_view(
                            scope0,
                        ) + spec_binding_idents(arms@[i as int].0));
                    }
                    arms[i].1.get_env_inner(scope, env);
                    scope.truncate(scope_len);
                    proof {
                        assert(scope@ =~= scope0);
                        let pre = arms@.subrange(0, i as int);
                        let post = arms@.subrange(0, i as int + 1);
                        assert(post.drop_last() =~= pre);
                        assert(post.last() == arms@[i as int]);
                    }
                    i += 1;
                }
                proof {
                    assert(arms@.subrange(0, arms@.len() as int) =~= arms@);
                }
            },
            hir::Expr::Constructor(_, _, inner) => {
                proof {
                    assert(decreases_to!(*self => *self.expr));
                    assert(decreases_to!(*self.expr => *inner));
                }
                inner.get_env_inner(scope, env);
            },
        }
    }

    /// The free variables of this expression: every name it references by
    /// value and does not bind itself, in first-occurrence order.
    pub fn get_env(&self) -> (r: Vec<Ident>)
        ensures
            crate::mir::idents_view(r@) == spec_get_env_inner(
                *self,
                Seq::empty(),
                Seq::empty(),
            ),
        decreases *self, 1int,
    {
        let mut scope: Vec<Ident> = Vec::new();
        let mut env: Vec<Ident> = Vec::new();
        proof {
            assert(crate::mir::idents_view(scope@) =~= Seq::<Seq<char>>::empty());
            assert(crate::mir::idents_view(env@) =~= Seq::<Seq<char>>::empty());
        }
        self.get_env_inner(&mut scope, &mut env);
        env
    }
}

/// Walk each expression of `es` in order, accumulating free names.
#[verifier::loop_isolation(false)]
fn get_env_list(es: &Vec<TypeExpr>, scope: &mut Vec<Ident>, env: &mut Vec<Ident>)
    ensures
        final(scope)@ == old(scope)@,
        crate::mir::idents_view(final(env)@) == spec_get_env_list(
            es@,
            crate::mir::idents_view(old(scope)@),
            crate::mir::idents_view(old(env)@),
        ),
    decreases *es, 0int,
{
    let ghost scope0 = scope@;
    let ghost env0 = env@;
    let mut i: usize = 0;
    proof {
        assert(es@.subrange(0, 0) =~= Seq::<TypeExpr>::empty());
    }
    while i < es.len()
        invariant
            0 <= i <= es@.len(),
            scope@ == scope0,
            crate::mir::idents_view(env@) == spec_get_env_list(
                es@.subrange(0, i as int),
                crate::mir::idents_view(scope0),
                crate::mir::idents_view(env0),
            ),
        decreases es@.len() - i,
    {
        proof {
            assert(decreases_to!(*es => es@));
            assert(decreases_to!(es@ => es@[i as int]));
        }
        es[i].get_env_inner(scope, env);
        proof {
            let pre = es@.subrange(0, i as int);
            let post = es@.subrange(0, i as int + 1);
            assert(post.drop_last() =~= pre);
            assert(post.last() == es@[i as int]);
        }
        i += 1;
    }
    proof {
        assert(es@.subrange(0, es@.len() as int) =~= es@);
    }
}

/// Keep, in order, the names of `names` that `remove` does not hold.
pub open spec fn spec_filter_env(names: Seq<Seq<char>>, remove: Seq<Seq<char>>) -> Seq<Seq<char>>
    decreases names,
{
    if names.len() == 0 {
        Seq::empty()
    } else if remove.contains(names.last()) {
        spec_filter_env(names.drop_last(), remove)
    } else {
        spec_filter_env(names.drop_last(), remove).push(names.last())
    }
}

/// The resolver a definition instantiation uses: the definition's generic
/// parameter names bound positionally to the concrete arguments.
pub open spec fn spec_resolver_of(gens: Seq<Ident>, args: Seq<RawTypeV>) -> Seq<
    (Seq<char>, RawTypeV),
> {
    Seq::new(gens.len(), |i: int| (ident_str(gens[i]), args[i]))
}

/// When arguments match the parameters in number, the resolver binds
/// exactly the declared generic-parameter names.
pub proof fn lemma_resolver_dom(gens: Seq<Ident>, args: Seq<RawTypeV>)
    ensures
        res_dom(spec_resolver_of(gens, args)) == hir::gen_set(gens),
{
    let res = spec_resolver_of(gens, args);
    assert forall|n: Seq<char>| res_dom(res).contains(n) <==> hir::gen_set(gens).contains(
        n,
    ) by {
        lemma_res_lookup_exists(res, n);
        if hir::gen_set(gens).contains(n) {
            let i = choose|i: int| 0 <= i < gens.len() && ident_str(#[trigger] gens[i]) == n;
            assert(res[i].0 == n);
        }
        if res_dom(res).contains(n) {
            let i = choose|i: int| 0 <= i < res.len() && (#[trigger] res[i]).0 == n;
            assert(ident_str(gens[i]) == n);
        }
    }
    assert(res_dom(res) =~= hir::gen_set(gens));
}

/// A found definition is one of the registry's entries.
pub proof fn lemma_def_lookup_found(defs: Seq<(Ident, Def)>, name: Seq<char>)
    requires
        hir::spec_def_lookup(defs, name) is Some,
    ensures
        exists|i: int|
            0 <= i < defs.len() && ident_str((#[trigger] defs[i]).0) == name && defs[i].1
                == hir::spec_def_lookup(defs, name).unwrap(),
    decreases defs,
{
    if defs.len() > 0 && ident_str(defs.first().0) != name {
        lemma_def_lookup_found(defs.drop_first(), name);
        let i = choose|i: int|
            0 <= i < defs.drop_first().len() && ident_str(
                (#[trigger] defs.drop_first()[i]).0,
            ) == name && defs.drop_first()[i].1 == hir::spec_def_lookup(
                defs.drop_first(),
                name,
            ).unwrap();
        assert(defs[i + 1] == defs.drop_first()[i]);
    }
}

/// Lowering one expression under a resolver. Pure in the input: the node
/// a reference lowers to depends only on the reference's name and the
/// concrete types of its arguments, never on what has been instantiated
/// so far — which is what lets the global map memoize soundly.
pub open spec fn spec_lower(
    e: TypeExpr,
    prog: hir::Program,
    res: Seq<(Seq<char>, RawTypeV)>,
) -> crate::mir::NodeV
    decreases e,
{
    let ty = spec_inst_type(e.ty, prog.datas@, res);
    let span = e.span;
    match *e.expr {
        hir::Expr::Literal(l) => crate::mir::NodeV {
            expr: Box::new(crate::mir::ExprV::Literal(l@)),
            span,
            ty,
        },
        hir::Expr::Local(x) => crate::mir::NodeV {
            expr: Box::new(crate::mir::ExprV::GetLocal(ident_str(x))),
            span,
            ty,
        },
        hir::Expr::Global(g, tys) => crate::mir::NodeV {
            expr: Box::new(
                crate::mir::ExprV::GetGlobal(
                    DefIdV { name: ident_str(g), args: spec_inst_types(tys@, prog.datas@, res) },
                ),
            ),
            span,
            ty,
        },
        hir::Expr::Intrinsic(op, args) => crate::mir::NodeV {
            expr: Box::new(crate::mir::ExprV::Intrinsic(op, spec_lower_list(args@, prog, res))),
            span,
            ty,
        },
        hir::Expr::Unary(op, a) => crate::mir::NodeV {
            expr: Box::new(crate::mir::ExprV::Unary(op, spec_lower(a, prog, res))),
            span,
            ty,
        },
        hir::Expr::Binary(op, a, b) => crate::mir::NodeV {
            expr: Box::new(
                crate::mir::ExprV::Binary(op, spec_lower(a, prog, res), spec_lower(b, prog, res)),
            ),
            span,
            ty,
        },
        hir::Expr::Tuple(items) => crate::mir::NodeV {
            expr: Box::new(crate::mir::ExprV::Tuple(spec_lower_list(items@, prog, res))),
            span,
            ty,
        },
        hir::Expr::Record(fields) => crate::mir::NodeV {
            expr: Box::new(crate::mir::ExprV::Tuple(spec_lower_fields(fields@, prog, res))),
            span,
            ty,
        },
        hir::Expr::List(items) => crate::mir::NodeV {
            expr: Box::new(crate::mir::ExprV::List(spec_lower_list(items@, prog, res))),
            span,
            ty,
        },
        hir::Expr::Apply(f, arg) => crate::mir::NodeV {
            expr: Box::new(
                crate::mir::ExprV::Apply(spec_lower(f, prog, res), spec_lower(arg, prog, res)),
            ),
            span,
            ty,
        },
        hir::Expr::Access(record, field) => crate::mir::NodeV {
            expr: Box::new(
                crate::mir::ExprV::Access(
                    spec_lower(record, prog, res),
                    spec_access_index(record.ty, ident_str(field), prog.datas@),
                ),
            ),
            span,
            ty,
        },
        hir::Expr::Update(record, field, value) => crate::mir::NodeV {
            expr: Box::new(
                crate::mir::ExprV::Update(
                    spec_lower(record, prog, res),
                    spec_access_index(record.ty, ident_str(field), prog.datas@),
                    ident_str(field),
                    spec_lower(value, prog, res),
                ),
            ),
            span,
            ty,
        },
        hir::Expr::Func(binding, body) => crate::mir::NodeV {
            expr: Box::new(
                crate::mir::ExprV::Func(
                    spec_make_extractor(binding, prog.datas@),
                    spec_filter_env(
                        spec_get_env_inner(body, Seq::empty(), Seq::empty()),
                        crate::mir::spec_ext_bindings(spec_make_extractor(binding, prog.datas@)),
                    ),
                    spec_lower(body, prog, res),
                ),
            ),
            span,
            ty,
        },
        hir::Expr::Match(pred, arms) => crate::mir::NodeV {
            expr: Box::new(
                crate::mir::ExprV::Match(
                    spec_lower(pred, prog, res),
                    spec_lower_arms(arms@, prog, res),
                ),
            ),
            span,
            ty,
        },
        hir::Expr::Constructor(d, v, inner) => if prog.datas@[d as int].variants@.len() == 1 {
            spec_lower(inner, prog, res)
        } else {
            crate::mir::NodeV {
                expr: Box::new(
                    crate::mir::ExprV::Tuple(
                        seq![
                            crate::mir::NodeV {
                                expr: Box::new(
                                    crate::mir::ExprV::Literal(crate::hir::LiteralV::Number(v)),
                                ),
                                span,
                                ty: RawTypeV::Primitive(Primitive::Number),
                            },
                            spec_lower(inner, prog, res),
                        ],
                    ),
                ),
                span,
                ty,
            }
        },
    }
}

/// The positional index a symbolic field name resolves to on a
/// record-shaped type.
pub open spec fn spec_access_index(t: Ty, field: Seq<char>, datas: Seq<Data>) -> int {
    match hir::spec_record_fields(t, datas) {
        Some(fs) => spec_field_index(fs, field),
        None => vstd::pervasive::arbitrary(),
    }
}

pub open spec fn spec_lower_list(
    es: Seq<TypeExpr>,
    prog: hir::Program,
    res: Seq<(Seq<char>, RawTypeV)>,
) -> Seq<crate::mir::NodeV>
    decreases es,
{
    if es.len() == 0 {
        Seq::empty()
    } else {
        spec_lower_list(es.drop_last(), prog, res).push(spec_lower(es.last(), prog, res))
    }
}

pub open spec fn spec_lower_fields(
    fs: Seq<(Ident, TypeExpr)>,
    prog: hir::Program,
    res: Seq<(Seq<char>, RawTypeV)>,
) -> Seq<crate::mir::NodeV>
    decreases fs,
{
    if fs.len() == 0 {
        Seq::empty()
    } else {
        spec_lower_fields(fs.drop_last(), prog, res).push(spec_lower(fs.last().1, prog, res))
    }
}

pub open spec fn spec_lower_arms(
    arms: Seq<(TypeBinding, TypeExpr)>,
    prog: hir::Program,
    res: Seq<(Seq<char>, RawTypeV)>,
) -> Seq<(MatcherV, ExtractorV, crate::mir::NodeV)>
    decreases arms,
{
    if arms.len() == 0 {
        Seq::empty()
    } else {
        spec_lower_arms(arms.drop_last(), prog, res).push(
            (
                spec_make_matcher(arms.last().0, prog.datas@),
                spec_make_extractor(arms.last().0, prog.datas@),
                spec_lower(arms.last().1, prog, res),
            ),
        )
    }
}

/// The new global map keeps every old entry unchanged, in place.
pub open spec fn gmap_extends(
    a: Seq<(DefIdV, Option<crate::mir::NodeV>)>,
    b: Seq<(DefIdV, Option<crate::mir::NodeV>)>,
) -> bool {
    b.len() >= a.len() && forall|i: int| 0 <= i < a.len() ==> b[i] == a[i]
}

/// Every in-progress placeholder of the new map was already in progress in
/// the old one: a completed call leaves no new placeholder behind.
pub open spec fn gmap_completes(
    a: Seq<(DefIdV, Option<crate::mir::NodeV>)>,
    b: Seq<(DefIdV, Option<crate::mir::NodeV>)>,
) -> bool {
    forall|i: int|
        0 <= i < b.len() && (#[trigger] b[i]).1 is None ==> i < a.len() && a[i].1 is None
}

/// No two entries share a global identity: one body per instantiation.
pub open spec fn gkeys_distinct(gs: Seq<(DefIdV, Option<crate::mir::NodeV>)>) -> bool {
    forall|i: int, j: int| 0 <= i < j < gs.len() ==> (#[trigger] gs[i]).0 != (#[trigger] gs[j]).0
}

/// Whether the map holds an entry for this global identity.
pub open spec fn gmap_contains(gs: Seq<(DefIdV, Option<crate::mir::NodeV>)>, k: DefIdV) -> bool {
    exists|i: int| 0 <= i < gs.len() && (#[trigger] gs[i]).0 == k
}

/// A completed entry holds exactly the lowering of its definition's body
/// under the resolver its key's type arguments induce.
pub open spec fn entry_ok(
    prog: hir::Program,
    key: DefIdV,
    val: Option<crate::mir::NodeV>,
) -> bool {
    match val {
        None => true,
        Some(n) => match hir::spec_def_lookup(prog.defs@, key.name) {
            Some(def) => def.generics@.len() == key.args.len() && n == spec_lower(
                def.body,
                prog,
                spec_resolver_of(def.generics@, key.args),
            ),
            None => false,
        },
    }
}

/// The lowering invariant: distinct keys, and every completed body is the
/// lowering its key demands.
pub open spec fn lower_inv(prog: hir::Program, p: crate::mir::Program) -> bool {
    &&& gkeys_distinct(crate::mir::globals_view(p.globals@))
    &&& forall|i: int|
        0 <= i < crate::mir::globals_view(p.globals@).len() ==> entry_ok(
            prog,
            (#[trigger] crate::mir::globals_view(p.globals@)[i]).0,
            crate::mir::globals_view(p.globals@)[i].1,
        )
}

/// The map a run of the definition instantiator leaves on success, or
/// `None` where it fails: the same recursion as the executable driver,
/// over views, with the same budget. A fresh key gains a placeholder, the
/// definition's body is lowered under the resolver its arguments induce,
/// and the placeholder is overwritten with the completed body; a key
/// already present is served from the map unchanged. The run fails
/// exactly where the definition name is unknown or the budget runs out.
pub open spec fn sd_def(
    prog: hir::Program,
    name: Seq<char>,
    args: Seq<RawTypeV>,
    fuel: nat,
    gs: Seq<(DefIdV, Option<crate::mir::NodeV>)>,
) -> Option<Seq<(DefIdV, Option<crate::mir::NodeV>)>>
    decreases fuel, prog, 0int,
{
    let key = DefIdV { name, args };
    if gmap_contains(gs, key) {
        Some(gs)
    } else {
        let gs1 = gs.push((key, None));
        match hir::spec_def_lookup(prog.defs@, name) {
            None => None,
            Some(def) => if fuel == 0 {
                None
            } else {
                let res = spec_resolver_of(def.generics@, args);
                match sd_expr(def.body, prog, res, (fuel - 1) as nat, gs1) {
                    None => None,
                    Some(gs2) => Some(
                        gs2.update(gs.len() as int, (key, Some(spec_lower(def.body, prog, res)))),
                    ),
                }
            },
        }
    }
}

/// The map one expression's lowering leaves: children are walked in
/// evaluation order, each global reference demanding its definition's
/// instantiation.
pub open spec fn sd_expr(
    e: TypeExpr,
    prog: hir::Program,
    res: Seq<(Seq<char>, RawTypeV)>,
    fuel: nat,
    gs: Seq<(DefIdV, Option<crate::mir::NodeV>)>,
) -> Option<Seq<(DefIdV, Option<crate::mir::NodeV>)>>
    decreases fuel, e, 0int,
{
    match *e.expr {
        hir::Expr::Literal(_) => Some(gs),
        hir::Expr::Local(_) => Some(gs),
        hir::Expr::Global(g, tys) => if fuel == 0 {
            None
        } else {
            sd_def(
                prog,
                ident_str(g),
                spec_inst_types(tys@, prog.datas@, res),
                (fuel - 1) as nat,
                gs,
            )
        },
        hir::Expr::Intrinsic(_, args) => sd_list(args@, prog, res, fuel, gs),
        hir::Expr::Unary(_, a) => sd_expr(a, prog, res, fuel, gs),
        hir::Expr::Binary(_, a, b) => match sd_expr(a, prog, res, fuel, gs) {
            None => None,
            Some(g1) => sd_expr(b, prog, res, fuel, g1),
        },
        hir::Expr::Tuple(items) => sd_list(items@, prog, res, fuel, gs),
        hir::Expr::Record(fields) => sd_fields(fields@, prog, res, fuel, gs),
        hir::Expr::List(items) => sd_list(items@, prog, res, fuel, gs),
        hir::Expr::Apply(f, arg) => match sd_expr(f, prog, res, fuel, gs) {
            None => None,
            Some(g1) => sd_expr(arg, prog, res, fuel, g1),
        },
        hir::Expr::Access(record, _) => sd_expr(record, prog, res, fuel, gs),
        hir::Expr::Update(record, _, value) => match sd_expr(record, prog, res, fuel, gs) {
            None => None,
            Some(g1) => sd_expr(value, prog, res, fuel, g1),
        },
        hir::Expr::Func(_, body) => sd_expr(body, prog, res, fuel, gs),
        hir::Expr::Match(pred, arms) => match sd_expr(pred, prog, res, fuel, gs) {
            None => None,
            Some(g1) => sd_arms(arms@, prog, res, fuel, g1),
        },
        hir::Expr::Constructor(_, _, inner) => sd_expr(inner, prog, res, fuel, gs),
    }
}

pub open spec fn sd_list(
    es: Seq<TypeExpr>,
    prog: hir::Program,
    res: Seq<(Seq<char>, RawTypeV)>,
    fuel: nat,
    gs: Seq<(DefIdV, Option<crate::mir::NodeV>)>,
) -> Option<Seq<(DefIdV, Option<crate::mir::NodeV>)>>
    decreases fuel, es, 1int,
{
    if es.len() == 0 {
        Some(gs)
    } else {
        match sd_list(es.drop_last(), prog, res, fuel, gs) {
            None => None,
            Some(g1) => sd_expr(es.last(), prog, res, fuel, g1),
        }
    }
}

pub open spec fn sd_fields(
    fs: Seq<(Ident, TypeExpr)>,
    prog: hir::Program,
    res: Seq<(Seq<char>, RawTypeV)>,
    fuel: nat,
    gs: Seq<(DefIdV, Option<crate::mir::NodeV>)>,
) -> Option<Seq<(DefIdV, Option<crate::mir::NodeV>)>>
    decreases fuel, fs, 1int,
{
    if fs.len() == 0 {
        Some(gs)
    } else {
        match sd_fields(fs.drop_last(), prog, res, fuel, gs) {
            None => None,
            Some(g1) => sd_expr(fs.last().1, prog, res, fuel, g1),
        }
    }
}

pub open spec fn sd_arms(
    arms: Seq<(TypeBinding, TypeExpr)>,
    prog: hir::Program,
    res: Seq<(Seq<char>, RawTypeV)>,
    fuel: nat,
    gs: Seq<(DefIdV, Option<crate::mir::NodeV>)>,
) -> Option<Seq<(DefIdV, Option<crate::mir::NodeV>)>>
    decreases fuel, arms, 1int,
{
    if arms.len() == 0 {
        Some(gs)
    } else {
        match sd_arms(arms.drop_last(), prog, res, fuel, gs) {
            None => None,
            Some(g1) => sd_expr(arms.last().1, prog, res, fuel, g1),
        }
    }
}

/// A failure on a prefix dooms the whole list.
proof fn lemma_sd_list_prefix_none(
    es: Seq<TypeExpr>,
    k: int,
    prog: hir::Program,
    res: Seq<(Seq<char>, RawTypeV)>,
    fuel: nat,
    gs: Seq<(DefIdV, Option<crate::mir::NodeV>)>,
)
    requires
        0 <= k <= es.len(),
        sd_list(es.subrange(0, k), prog, res, fuel, gs) is None,
    ensures
        sd_list(es, prog, res, fuel, gs) is None,
    decreases es.len(),
{
    if es.len() > k {
        assert(es.drop_last().subrange(0, k) =~= es.subrange(0, k));
        lemma_sd_list_prefix_none(es.drop_last(), k, prog, res, fuel, gs);
    } else {
        assert(es.subrange(0, k) =~= es);
    }
}

/// A failure on a prefix dooms the whole field list.
proof fn lemma_sd_fields_prefix_none(
    fs: Seq<(Ident, TypeExpr)>,
    k: int,
    prog: hir::Program,
    res: Seq<(Seq<char>, RawTypeV)>,
    fuel: nat,
    gs: Seq<(DefIdV, Option<crate::mir::NodeV>)>,
)
    requires
        0 <= k <= fs.len(),
        sd_fields(fs.subrange(0, k), prog, res, fuel, gs) is None,
    ensures
        sd_fields(fs, prog, res, fuel, gs) is None,
    decreases fs.len(),
{
    if fs.len() > k {
        assert(fs.drop_last().subrange(0, k) =~= fs.subrange(0, k));
        lemma_sd_fields_prefix_none(fs.drop_last(), k, prog, res, fuel, gs);
    } else {
        assert(fs.subrange(0, k) =~= fs);
    }
}

/// A failure on a prefix dooms the whole arm list.
proof fn lemma_sd_arms_prefix_none(
    arms: Seq<(TypeBinding, TypeExpr)>,
    k: int,
    prog: hir::Program,
    res: Seq<(Seq<char>, RawTypeV)>,
    fuel: nat,
    gs: Seq<(DefIdV, Option<crate::mir::NodeV>)>,
)
    requires
        0 <= k <= arms.len(),
        sd_arms(arms.subrange(0, k), prog, res, fuel, gs) is None,
    ensures
        sd_arms(arms, prog, res, fuel, gs) is None,
    decreases arms.len(),
{
    if arms.len() > k {
        assert(arms.drop_last().subrange(0, k) =~= arms.subrange(0, k));
        lemma_sd_arms_prefix_none(arms.drop_last(), k, prog, res, fuel, gs);
    } else {
        assert(arms.subrange(0, k) =~= arms);
    }
}

/// Every global reference in a lowered node has an entry in the map.
pub open spec fn node_closed(
    n: crate::mir::NodeV,
    gs: Seq<(DefIdV, Option<crate::mir::NodeV>)>,
) -> bool
    decreases n,
{
    match *n.expr {
        crate::mir::ExprV::Literal(_) => true,
        crate::mir::ExprV::GetGlobal(id) => gmap_contains(gs, id),
        crate::mir::ExprV::GetLocal(_) => true,
        crate::mir::ExprV::Intrinsic(_, args) => nodes_closed(args, gs),
        crate::mir::ExprV::Unary(_, a) => node_closed(a, gs),
        crate::mir::ExprV::Binary(_, a, b) => node_closed(a, gs) && node_closed(b, gs),
        crate::mir::ExprV::Tuple(items) => nodes_closed(items, gs),
        crate::mir::ExprV::List(items) => nodes_closed(items, gs),
        crate::mir::ExprV::Apply(f, arg) => node_closed(f, gs) && node_closed(arg, gs),
        crate::mir::ExprV::Access(r, _) => node_closed(r, gs),
        crate::mir::ExprV::Update(r, _, _, v) => node_closed(r, gs) && node_closed(v, gs),
        crate::mir::ExprV::Func(_, _, body) => node_closed(body, gs),
        crate::mir::ExprV::Match(pred, arms) => node_closed(pred, gs) && marms_closed(arms, gs),
    }
}

pub open spec fn nodes_closed(
    ns: Seq<crate::mir::NodeV>,
    gs: Seq<(DefIdV, Option<crate::mir::NodeV>)>,
) -> bool
    decreases ns,
{
    if ns.len() == 0 {
        true
    } else {
        nodes_closed(ns.drop_last(), gs) && node_closed(ns.last(), gs)
    }
}

pub open spec fn marms_closed(
    arms: Seq<(MatcherV, ExtractorV, crate::mir::NodeV)>,
    gs: Seq<(DefIdV, Option<crate::mir::NodeV>)>,
) -> bool
    decreases arms,
{
    if arms.len() == 0 {
        true
    } else {
        marms_closed(arms.drop_last(), gs) && node_closed(arms.last().2, gs)
    }
}

/// The map is reference-closed: every completed body's global references
/// point back into the map.
pub open spec fn map_closed(gs: Seq<(DefIdV, Option<crate::mir::NodeV>)>) -> bool {
    forall|i: int|
        0 <= i < gs.len() && (#[trigger] gs[i]).1 is Some ==> node_closed(gs[i].1.unwrap(), gs)
}

/// The new map keeps every old key at its place.
pub open spec fn keys_extend(
    a: Seq<(DefIdV, Option<crate::mir::NodeV>)>,
    b: Seq<(DefIdV, Option<crate::mir::NodeV>)>,
) -> bool {
    b.len() >= a.len() && forall|i: int| 0 <= i < a.len() ==> (#[trigger] b[i]).0 == a[i].0
}

/// Closedness survives any map whose keys extend the old one's.
pub proof fn lemma_node_closed_mono(
    n: crate::mir::NodeV,
    a: Seq<(DefIdV, Option<crate::mir::NodeV>)>,
    b: Seq<(DefIdV, Option<crate::mir::NodeV>)>,
)
    requires
        node_closed(n, a),
        keys_extend(a, b),
    ensures
        node_closed(n, b),
    decreases n, 0int,
{
    match *n.expr {
        crate::mir::ExprV::Literal(_) => (),
        crate::mir::ExprV::GetGlobal(id) => {
            let i = choose|i: int| 0 <= i < a.len() && (#[trigger] a[i]).0 == id;
            assert(b[i].0 == id);
        },
        crate::mir::ExprV::GetLocal(_) => (),
        crate::mir::ExprV::Intrinsic(_, args) => lemma_nodes_closed_mono(args, a, b),
        crate::mir::ExprV::Unary(_, x) => lemma_node_closed_mono(x, a, b),
        crate::mir::ExprV::Binary(_, x, y) => {
            lemma_node_closed_mono(x, a, b);
            lemma_node_closed_mono(y, a, b);
        },
        crate::mir::ExprV::Tuple(items) => lemma_nodes_closed_mono(items, a, b),
        crate::mir::ExprV::List(items) => lemma_nodes_closed_mono(items, a, b),
        crate::mir::ExprV::Apply(f, arg) => {
            lemma_node_closed_mono(f, a, b);
            lemma_node_closed_mono(arg, a, b);
        },
        crate::mir::ExprV::Access(r, _) => lemma_node_closed_mono(r, a, b),
        crate::mir::ExprV::Update(r, _, _, v) => {
            lemma_node_closed_mono(r, a, b);
            lemma_node_closed_mono(v, a, b);
        },
        crate::mir::ExprV::Func(_, _, body) => lemma_node_closed_mono(body, a, b),
        crate::mir::ExprV::Match(pred, arms) => {
            lemma_node_closed_mono(pred, a, b);
            lemma_marms_closed_mono(arms, a, b);
        },
    }
}

proof fn lemma_nodes_closed_mono(
    ns: Seq<crate::mir::NodeV>,
    a: Seq<(DefIdV, Option<crate::mir::NodeV>)>,
    b: Seq<(DefIdV, Option<crate::mir::NodeV>)>,
)
    requires
        nodes_closed(ns, a),
        keys_extend(a, b),
    ensures
        nodes_closed(ns, b),
    decreases ns, 1int,
{
    if ns.len() > 0 {
        lemma_nodes_closed_mono(ns.drop_last(), a, b);
        lemma_node_closed_mono(ns.last(), a, b);
    }
}

proof fn lemma_marms_closed_mono(
    arms: Seq<(MatcherV, ExtractorV, crate::mir::NodeV)>,
    a: Seq<(DefIdV, Option<crate::mir::NodeV>)>,
    b: Seq<(DefIdV, Option<crate::mir::NodeV>)>,
)
    requires
        marms_closed(arms, a),
        keys_extend(a, b),
    ensures
        marms_closed(arms, b),
    decreases arms, 1int,
{
    if arms.len() > 0 {
        lemma_marms_closed_mono(arms.drop_last(), a, b);
        lemma_node_closed_mono(arms.last().2, a, b);
    }
}

/// A successful run of the spec driver keeps every old key at its place,
/// holds the requested identity, and leaves a reference-closed map.
pub proof fn lemma_sd_def_closed(
    prog: hir::Program,
    name: Seq<char>,
    args: Seq<RawTypeV>,
    fuel: nat,
    gs: Seq<(DefIdV, Option<crate::mir::NodeV>)>,
)
    ensures
        sd_def(prog, name, args, fuel, gs) matches Some(gs2) ==> {
            &&& keys_extend(gs, gs2)
            &&& gmap_contains(gs2, DefIdV { name, args })
            &&& (map_closed(gs) ==> map_closed(gs2))
        },
    decreases fuel, prog, 0int,
{
    let key = DefIdV { name, args };
    if !gmap_contains(gs, key) {
        let gs1 = gs.push((key, None));
        match hir::spec_def_lookup(prog.defs@, name) {
            None => (),
            Some(def) => {
                if fuel > 0 {
                    let res = spec_resolver_of(def.generics@, args);
                    lemma_sd_expr_closed(def.body, prog, res, (fuel - 1) as nat, gs1);
                    match sd_expr(def.body, prog, res, (fuel - 1) as nat, gs1) {
                        None => (),
                        Some(gs2) => {
                            let body = spec_lower(def.body, prog, res);
                            let gs3 = gs2.update(gs.len() as int, (key, Some(body)));
                            assert(keys_extend(gs, gs1));
                            assert(gs2[gs.len() as int].0 == key);
                            assert(keys_extend(gs2, gs3));
                            assert(keys_extend(gs, gs3));
                            assert(gs3[gs.len() as int].0 == key);
                            assert(gmap_contains(gs3, key));
                            if map_closed(gs) {
                                assert forall|i: int|
                                    0 <= i < gs1.len() && (#[trigger] gs1[i]).1 is Some implies
                                    node_closed(gs1[i].1.unwrap(), gs1) by {
                                    assert(gs1[i] == gs[i]);
                                    lemma_node_closed_mono(gs[i].1.unwrap(), gs, gs1);
                                }
                                assert(map_closed(gs1));
                                assert(map_closed(gs2));
                                assert forall|i: int|
                                    0 <= i < gs3.len() && (#[trigger] gs3[i]).1 is Some implies
                                    node_closed(gs3[i].1.unwrap(), gs3) by {
                                    if i == gs.len() {
                                        lemma_node_closed_mono(body, gs2, gs3);
                                    } else {
                                        assert(gs3[i] == gs2[i]);
                                        lemma_node_closed_mono(gs2[i].1.unwrap(), gs2, gs3);
                                    }
                                }
                            }
                        },
                    }
                }
            },
        }
    }
}

/// A successful expression lowering keeps old keys, preserves
/// reference-closedness, and produces a node whose global references all
/// have entries in the map it leaves: the side effect of each reference
/// is visible in the final map.
pub proof fn lemma_sd_expr_closed(
    e: TypeExpr,
    prog: hir::Program,
    res: Seq<(Seq<char>, RawTypeV)>,
    fuel: nat,
    gs: Seq<(DefIdV, Option<crate::mir::NodeV>)>,
)
    ensures
        sd_expr(e, prog, res, fuel, gs) matches Some(gs2) ==> {
            &&& keys_extend(gs, gs2)
            &&& (map_closed(gs) ==> map_closed(gs2))
            &&& node_closed(spec_lower(e, prog, res), gs2)
        },
    decreases fuel, e, 0int,
{
    match *e.expr {
        hir::Expr::Literal(_) => (),
        hir::Expr::Local(_) => (),
        hir::Expr::Global(g, tys) => {
            if fuel > 0 {
                lemma_sd_def_closed(
                    prog,
                    ident_str(g),
                    spec_inst_types(tys@, prog.datas@, res),
                    (fuel - 1) as nat,
                    gs,
                );
            }
        },
        hir::Expr::Intrinsic(_, args) => lemma_sd_list_closed(args@, prog, res, fuel, gs),
        hir::Expr::Unary(_, a) => lemma_sd_expr_closed(a, prog, res, fuel, gs),
        hir::Expr::Binary(_, a, b) => {
            lemma_sd_expr_closed(a, prog, res, fuel, gs);
            match sd_expr(a, prog, res, fuel, gs) {
                None => (),
                Some(g1) => {
                    lemma_sd_expr_closed(b, prog, res, fuel, g1);
                    match sd_expr(b, prog, res, fuel, g1) {
                        None => (),
                        Some(g2) => lemma_node_closed_mono(spec_lower(a, prog, res), g1, g2),
                    }
                },
            }
        },
        hir::Expr::Tuple(items) => lemma_sd_list_closed(items@, prog, res, fuel, gs),
        hir::Expr::Record(fields) => lemma_sd_fields_closed(fields@, prog, res, fuel, gs),
        hir::Expr::List(items) => lemma_sd_list_closed(items@, prog, res, fuel, gs),
        hir::Expr::Apply(f, arg) => {
            lemma_sd_expr_closed(f, prog, res, fuel, gs);
            match sd_expr(f, prog, res, fuel, gs) {
                None => (),
                Some(g1) => {
                    lemma_sd_expr_closed(arg, prog, res, fuel, g1);
                    match sd_expr(arg, prog, res, fuel, g1) {
                        None => (),
                        Some(g2) => lemma_node_closed_mono(spec_lower(f, prog, res), g1, g2),
                    }
                },
            }
        },
        hir::Expr::Access(record, _) => lemma_sd_expr_closed(record, prog, res, fuel, gs),
        hir::Expr::Update(record, _, value) => {
            lemma_sd_expr_closed(record, prog, res, fuel, gs);
            match sd_expr(record, prog, res, fuel, gs) {
                None => (),
                Some(g1) => {
                    lemma_sd_expr_closed(value, prog, res, fuel, g1);
                    match sd_expr(value, prog, res, fuel, g1) {
                        None => (),
                        Some(g2) => lemma_node_closed_mono(
                            spec_lower(record, prog, res),
                            g1,
                            g2,
                        ),
                    }
                },
            }
        },
        hir::Expr::Func(_, body) => lemma_sd_expr_closed(body, prog, res, fuel, gs),
        hir::Expr::Match(pred, arms) => {
            lemma_sd_expr_closed(pred, prog, res, fuel, gs);
            match sd_expr(pred, prog, res, fuel, gs) {
                None => (),
                Some(g1) => {
                    lemma_sd_arms_closed(arms@, prog, res, fuel, g1);
                    match sd_arms(arms@, prog, res, fuel, g1) {
                        None => (),
                        Some(g2) => lemma_node_closed_mono(
                            spec_lower(pred, prog, res),
                            g1,
                            g2,
                        ),
                    }
                },
            }
        },
        hir::Expr::Constructor(d, v, inner) => {
            lemma_sd_expr_closed(inner, prog, res, fuel, gs);
            if prog.datas@[d as int].variants@.len() != 1 {
                match sd_expr(inner, prog, res, fuel, gs) {
                    None => (),
                    Some(g2) => {
                        let n = spec_lower(e, prog, res);
                        let items = (*n.expr)->Tuple_0;
                        assert(items.drop_last().drop_last()
                            =~= Seq::<crate::mir::NodeV>::empty());
                        assert(items.drop_last().last() == items[0]);
                        assert(node_closed(items[0], g2));
                        assert(items[1] == spec_lower(inner, prog, res));
                        assert(node_closed(items[1], g2));
                        assert(nodes_closed(items.drop_last().drop_last(), g2));
                        assert(nodes_closed(items.drop_last(), g2));
                        assert(nodes_closed(items, g2));
                    },
                }
            }
        },
    }
}

proof fn lemma_sd_list_closed(
    es: Seq<TypeExpr>,
    prog: hir::Program,
    res: Seq<(Seq<char>, RawTypeV)>,
    fuel: nat,
    gs: Seq<(DefIdV, Option<crate::mir::NodeV>)>,
)
    ensures
        sd_list(es, prog, res, fuel, gs) matches Some(gs2) ==> {
            &&& keys_extend(gs, gs2)
            &&& (map_closed(gs) ==> map_closed(gs2))
            &&& nodes_closed(spec_lower_list(es, prog, res), gs2)
        },
    decreases fuel, es, 1int,
{
    if es.len() > 0 {
        lemma_sd_list_closed(es.drop_last(), prog, res, fuel, gs);
        match sd_list(es.drop_last(), prog, res, fuel, gs) {
            None => (),
            Some(g1) => {
                lemma_sd_expr_closed(es.last(), prog, res, fuel, g1);
                match sd_expr(es.last(), prog, res, fuel, g1) {
                    None => (),
                    Some(g2) => {
                        lemma_nodes_closed_mono(
                            spec_lower_list(es.drop_last(), prog, res),
                            g1,
                            g2,
                        );
                        let full = spec_lower_list(es, prog, res);
                        assert(full.drop_last() =~= spec_lower_list(es.drop_last(), prog, res));
                        assert(full.last() == spec_lower(es.last(), prog, res));
                    },
                }
            },
        }
    }
}

proof fn lemma_sd_fields_closed(
    fs: Seq<(Ident, TypeExpr)>,
    prog: hir::Program,
    res: Seq<(Seq<char>, RawTypeV)>,
    fuel: nat,
    gs: Seq<(DefIdV, Option<crate::mir::NodeV>)>,
)
    ensures
        sd_fields(fs, prog, res, fuel, gs) matches Some(gs2) ==> {
            &&& keys_extend(gs, gs2)
            &&& (map_closed(gs) ==> map_closed(gs2))
            &&& nodes_closed(spec_lower_fields(fs, prog, res), gs2)
        },
    decreases fuel, fs, 1int,
{
    if fs.len() > 0 {
        lemma_sd_fields_closed(fs.drop_last(), prog, res, fuel, gs);
        match sd_fields(fs.drop_last(), prog, res, fuel, gs) {
            None => (),
            Some(g1) => {
                lemma_sd_expr_closed(fs.last().1, prog, res, fuel, g1);
                match sd_expr(fs.last().1, prog, res, fuel, g1) {
                    None => (),
                    Some(g2) => {
                        lemma_nodes_closed_mono(
                            spec_lower_fields(fs.drop_last(), prog, res),
                            g1,
                            g2,
                        );
                        let full = spec_lower_fields(fs, prog, res);
                        assert(full.drop_last() =~= spec_lower_fields(
                            fs.drop_last(),
                            prog,
                            res,
                        ));
                        assert(full.last() == spec_lower(fs.last().1, prog, res));
                    },
                }
            },
        }
    }
}

proof fn lemma_sd_arms_closed(
    arms: Seq<(TypeBinding, TypeExpr)>,
    prog: hir::Program,
    res: Seq<(Seq<char>, RawTypeV)>,
    fuel: nat,
    gs: Seq<(DefIdV, Option<crate::mir::NodeV>)>,
)
    ensures
        sd_arms(arms, prog, res, fuel, gs) matches Some(gs2) ==> {
            &&& keys_extend(gs, gs2)
            &&& (map_closed(gs) ==> map_closed(gs2))
            &&& marms_closed(spec_lower_arms(arms, prog, res), gs2)
        },
    decreases fuel, arms, 1int,
{
    if arms.len() > 0 {
        lemma_sd_arms_closed(arms.drop_last(), prog, res, fuel, gs);
        match sd_arms(arms.drop_last(), prog, res, fuel, gs) {
            None => (),
            Some(g1) => {
                lemma_sd_expr_closed(arms.last().1, prog, res, fuel, g1);
                match sd_expr(arms.last().1, prog, res, fuel, g1) {
                    None => (),
                    Some(g2) => {
                        lemma_marms_closed_mono(
                            spec_lower_arms(arms.drop_last(), prog, res),
                            g1,
                            g2,
                        );
                        let full = spec_lower_arms(arms, prog, res);
                        assert(full.drop_last() =~= spec_lower_arms(
                            arms.drop_last(),
                            prog,
                            res,
                        ));
                        assert(full.last().2 == spec_lower(arms.last().1, prog, res));
                    },
                }
            },
        }
    }
}

/// Find the entry of this global identity, if the map has one.
#[verifier::loop_isolation(false)]
fn find_global(gs: &Vec<(DefId, Option<RawTypeNode>)>, key: &DefId) -> (r: Option<usize>)
    ensures
        match r {
            Some(i) => i < gs@.len() && crate::mir::globals_view(gs@)[i as int].0 == key.view(),
            None => !gmap_contains(crate::mir::globals_view(gs@), key.view()),
        },
{
    let mut i: usize = 0;
    while i < gs.len()
        invariant
            0 <= i <= gs@.len(),
            forall|j: int|
                0 <= j < i ==> (#[trigger] crate::mir::globals_view(gs@)[j]).0 != key.view(),
        decreases gs@.len() - i,
    {
        if crate::mir::def_id_eq(&gs[i].0, key) {
            return Some(i);
        }
        i += 1;
    }
    None
}

impl crate::mir::Program {
    /// Lower one expression, demanding instantiation of every global it
    /// references. The result is a pure function of the expression and the
    /// resolver; the map only grows, keeps every old entry, and keeps the
    /// lowering invariant.
    #[verifier::loop_isolation(false)]
    #[verifier::rlimit(60)]
    fn instantiate_expr(
        &mut self,
        prog: &hir::Program,
        hir_expr: &TypeExpr,
        res: &Resolver,
        fuel: u64,
    ) -> (r: Result<RawTypeNode, Error>)
        requires
            hir::prog_wf(*prog),
            hir::expr_wf(*hir_expr, res_dom(res.view()), *prog),
            lower_inv(*prog, *old(self)),
        ensures
            final(self).entry == old(self).entry,
            lower_inv(*prog, *final(self)),
            gmap_extends(
                crate::mir::globals_view(old(self).globals@),
                crate::mir::globals_view(final(self).globals@),
            ),
            r matches Ok(n) ==> n.view() == spec_lower(*hir_expr, *prog, res.view())
                && gmap_completes(
                crate::mir::globals_view(old(self).globals@),
                crate::mir::globals_view(final(self).globals@),
            ),
            r matches Err(e) ==> e == Error::DepthLimit,
            (r matches Ok(_)) <==> sd_expr(
                *hir_expr,
                *prog,
                res.view(),
                fuel as nat,
                crate::mir::globals_view(old(self).globals@),
            ) is Some,
            r matches Ok(_) ==> Some(crate::mir::globals_view(final(self).globals@)) == sd_expr(
                *hir_expr,
                *prog,
                res.view(),
                fuel as nat,
                crate::mir::globals_view(old(self).globals@),
            ),
        decreases fuel, *hir_expr, 0int,
    {
        let ghost g0 = crate::mir::globals_view(self.globals@);
        let span = hir_expr.span;
        let expr: crate::mir::Expr = match &*hir_expr.expr {
            hir::Expr::Literal(l) => crate::mir::Expr::Literal(*l),
            hir::Expr::Local(x) => crate::mir::Expr::GetLocal(*x),
            hir::Expr::Global(g, tys) => {
                if fuel == 0 {
                    return Err(Error::DepthLimit);
                }
                let args = instantiate_types(prog, tys, res);
                proof {
                    crate::mir::lemma_raw_types_view(args@);
                }
                let id = match self.instantiate_def(prog, *g, args, fuel - 1) {
                    Ok(id) => id,
                    Err(e) => {
                        proof {
                            assert(e == Error::DepthLimit);
                        }
                        return Err(Error::DepthLimit);
                    },
                };
                crate::mir::Expr::GetGlobal(id)
            },
            hir::Expr::Intrinsic(op, args) => {
                proof {
                    assert(decreases_to!(*hir_expr => *hir_expr.expr));
                    assert(decreases_to!(*hir_expr.expr => *args));
                }
                let ns = self.instantiate_list(prog, args, res, fuel)?;
                crate::mir::Expr::Intrinsic(*op, ns)
            },
            hir::Expr::Unary(op, a) => {
                proof {
                    assert(decreases_to!(*hir_expr => *hir_expr.expr));
                    assert(decreases_to!(*hir_expr.expr => *a));
                }
                let an = self.instantiate_expr(prog, a, res, fuel)?;
                crate::mir::Expr::Unary(*op, an)
            },
            hir::Expr::Binary(op, a, b) => {
                proof {
                    assert(decreases_to!(*hir_expr => *hir_expr.expr));
                    assert(decreases_to!(*hir_expr.expr => *a));
                    assert(decreases_to!(*hir_expr.expr => *b));
                }
                let an = self.instantiate_expr(prog, a, res, fuel)?;
                let bn = self.instantiate_expr(prog, b, res, fuel)?;
                crate::mir::Expr::Binary(*op, an, bn)
            },
            hir::Expr::Tuple(items) => {
                proof {
                    assert(decreases_to!(*hir_expr => *hir_expr.expr));
                    assert(decreases_to!(*hir_expr.expr => *items));
                }
                let ns = self.instantiate_list(prog, items, res, fuel)?;
                crate::mir::Expr::Tuple(ns)
            },
            hir::Expr::Record(fields) => {
                proof {
                    assert(decreases_to!(*hir_expr => *hir_expr.expr));
                    assert(decreases_to!(*hir_expr.expr => *fields));
                    hir::lemma_field_exprs_wf(fields@, res_dom(res.view()), *prog);
                }
                let mut out: Vec<RawTypeNode> = Vec::new();
                let mut i: usize = 0;
                proof {
                    assert(fields@.subrange(0, 0) =~= Seq::<(Ident, TypeExpr)>::empty());
                }
                while i < fields.len()
                    invariant
                        0 <= i <= fields@.len(),
                        self.entry == old(self).entry,
                        lower_inv(*prog, *self),
                        gmap_extends(g0, crate::mir::globals_view(self.globals@)),
                        gmap_completes(g0, crate::mir::globals_view(self.globals@)),
                        crate::mir::nodes_view(out@) == spec_lower_fields(
                            fields@.subrange(0, i as int),
                            *prog,
                            res.view(),
                        ),
                        Some(crate::mir::globals_view(self.globals@)) == sd_fields(
                            fields@.subrange(0, i as int),
                            *prog,
                            res.view(),
                            fuel as nat,
                            g0,
                        ),
                    decreases fields@.len() - i,
                {
                    proof {
                        assert(decreases_to!(*fields => fields@));
                        assert(decreases_to!(fields@ => fields@[i as int]));
                        assert(decreases_to!(fields@[i as int] => fields@[i as int].1));
                    }
                    let n = match self.instantiate_expr(prog, &fields[i].1, res, fuel) {
                        Ok(n) => n,
                        Err(e) => {
                            proof {
                                let pre = fields@.subrange(0, i as int);
                                let post = fields@.subrange(0, i as int + 1);
                                assert(post.drop_last() =~= pre);
                                assert(post.last() == fields@[i as int]);
                                assert(sd_fields(post, *prog, res.view(), fuel as nat, g0)
                                    is None);
                                lemma_sd_fields_prefix_none(
                                    fields@,
                                    i as int + 1,
                                    *prog,
                                    res.view(),
                                    fuel as nat,
                                    g0,
                                );
                            }
                            return Err(e);
                        },
                    };
                    proof {
                        let pre = fields@.subrange(0, i as int);
                        let post = fields@.subrange(0, i as int + 1);
                        assert(post.drop_last() =~= pre);
                        assert(post.last() == fields@[i as int]);
                        assert(out@.push(n).drop_last() =~= out@);
                        assert(Some(crate::mir::globals_view(self.globals@)) == sd_fields(
                            post,
                            *prog,
                            res.view(),
                            fuel as nat,
                            g0,
                        ));
                    }
                    out.push(n);
                    i += 1;
                }
                proof {
                    assert(fields@.subrange(0, fields@.len() as int) =~= fields@);
                }
                crate::mir::Expr::Tuple(out)
            },
            hir::Expr::List(items) => {
                proof {
                    assert(decreases_to!(*hir_expr => *hir_expr.expr));
                    assert(decreases_to!(*hir_expr.expr => *items));
                }
                let ns = self.instantiate_list(prog, items, res, fuel)?;
                crate::mir::Expr::List(ns)
            },
            hir::Expr::Apply(f, arg) => {
                proof {
                    assert(decreases_to!(*hir_expr => *hir_expr.expr));
                    assert(decreases_to!(*hir_expr.expr => *f));
                    assert(decreases_to!(*hir_expr.expr => *arg));
                }
                let fun = self.instantiate_expr(prog, f, res, fuel)?;
                let an = self.instantiate_expr(prog, arg, res, fuel)?;
                crate::mir::Expr::Apply(fun, an)
            },
            hir::Expr::Access(record, field) => {
                proof {
                    assert(decreases_to!(*hir_expr => *hir_expr.expr));
                    assert(decreases_to!(*hir_expr.expr => *record));
                }
                let idx = match record_fields(prog, &record.ty) {
                    Some(fields) => field_index(fields, *field),
                    None => {
                        proof {
                            assert(false);
                        }
                        vstd::pervasive::unreached()
                    },
                };
                let rn = self.instantiate_expr(prog, record, res, fuel)?;
                crate::mir::Expr::Access(rn, idx)
            },
            hir::Expr::Update(record, field, value) => {
                proof {
                    assert(decreases_to!(*hir_expr => *hir_expr.expr));
                    assert(decreases_to!(*hir_expr.expr => *record));
                    assert(decreases_to!(*hir_expr.expr => *value));
                }
                let idx = match record_fields(prog, &record.ty) {
                    Some(fields) => field_index(fields, *field),
                    None => {
                        proof {
                            assert(false);
                        }
                        vstd::pervasive::unreached()
                    },
                };
                let rn = self.instantiate_expr(prog, record, res, fuel)?;
                let vn = self.instantiate_expr(prog, value, res, fuel)?;
                crate::mir::Expr::Update(rn, idx, *field, vn)
            },
            hir::Expr::Func(binding, body) => {
                proof {
                    assert(decreases_to!(*hir_expr => *hir_expr.expr));
                    assert(decreases_to!(*hir_expr.expr => *body));
                }
                let extractor = binding.make_extractor(prog);
                let e_bindings = extractor.get_bindings();
                let body_env = body.get_env();
                let ghost names = crate::mir::idents_view(body_env@);
                let ghost remove = crate::mir::spec_ext_bindings(extractor.view());
                let mut env: Vec<Ident> = Vec::new();
                let mut i: usize = 0;
                proof {
                    assert(names.subrange(0, 0) =~= Seq::<Seq<char>>::empty());
                    assert(crate::mir::idents_view(env@) =~= Seq::<Seq<char>>::empty());
                }
                while i < body_env.len()
                    invariant
                        0 <= i <= body_env@.len(),
                        crate::mir::idents_view(env@) == spec_filter_env(
                            names.subrange(0, i as int),
                            remove,
                        ),
                    decreases body_env@.len() - i,
                {
                    let id = body_env[i];
                    let bound = contains_ident(&e_bindings, id);
                    let ghost envc = env@;
                    if !bound {
                        env.push(id);
                        proof {
                            assert(crate::mir::idents_view(env@) =~= crate::mir::idents_view(
                                envc,
                            ).push(ident_str(id)));
                        }
                    }
                    proof {
                        let pre = names.subrange(0, i as int);
                        let post = names.subrange(0, i as int + 1);
                        assert(post.drop_last() =~= pre);
                        assert(post.last() == names[i as int]);
                        assert(names[i as int] == ident_str(body_env@[i as int]));
                    }
                    i += 1;
                }
                proof {
                    assert(names.subrange(0, names.len() as int) =~= names);
                }
                let bn = self.instantiate_expr(prog, body, res, fuel)?;
                crate::mir::Expr::Func(extractor, env, bn)
            },
            hir::Expr::Match(pred, arms) => {
                proof {
                    assert(decreases_to!(*hir_expr => *hir_expr.expr));
                    assert(decreases_to!(*hir_expr.expr => *pred));
                    assert(decreases_to!(*hir_expr.expr => *arms));
                }
                let pn = self.instantiate_expr(prog, pred, res, fuel)?;
                self.instantiate_match(prog, pn, arms, res, fuel)?
            },
            hir::Expr::Constructor(d, v, inner) => {
                proof {
                    assert(decreases_to!(*hir_expr => *hir_expr.expr));
                    assert(decreases_to!(*hir_expr.expr => *inner));
                }
                let inner_n = self.instantiate_expr(prog, inner, res, fuel)?;
                if prog.datas[*d].variants.len() == 1 {
                    // One variant needs no runtime discriminant: the inner
                    // value is the representation, unwrapped.
                    return Ok(inner_n);
                }
                let tag = RawTypeNode {
                    expr: Box::new(
                        crate::mir::Expr::Literal(crate::hir::Literal::Number(*v)),
                    ),
                    span,
                    ty: RawType::Primitive(Primitive::Number),
                };
                let mut items: Vec<RawTypeNode> = Vec::new();
                items.push(tag);
                items.push(inner_n);
                proof {
                    let s = items@;
                    let s1 = s.drop_last();
                    assert(s1.drop_last() =~= Seq::<RawTypeNode>::empty());
                    assert(s1.last() == s[0]);
                    assert(crate::mir::nodes_view(s1.drop_last())
                        =~= Seq::<crate::mir::NodeV>::empty());
                    assert(crate::mir::nodes_view(s1) =~= seq![s[0].view()]);
                    assert(crate::mir::nodes_view(s) =~= seq![s[0].view(), s[1].view()]);
                }
                crate::mir::Expr::Tuple(items)
            },
        };
        let ty = instantiate_type(prog, &hir_expr.ty, res);
        let r = RawTypeNode { expr: Box::new(expr), span, ty };
        proof {
            assert(r.view() =~= spec_lower(*hir_expr, *prog, res.view()));
        }
        Ok(r)
    }

    /// Lower each expression of `es` in order.
    #[verifier::loop_isolation(false)]
    fn instantiate_list(
        &mut self,
        prog: &hir::Program,
        es: &Vec<TypeExpr>,
        res: &Resolver,
        fuel: u64,
    ) -> (r: Result<Vec<RawTypeNode>, Error>)
        requires
            hir::prog_wf(*prog),
            hir::exprs_wf(es@, res_dom(res.view()), *prog),
            lower_inv(*prog, *old(self)),
        ensures
            final(self).entry == old(self).entry,
            lower_inv(*prog, *final(self)),
            gmap_extends(
                crate::mir::globals_view(old(self).globals@),
                crate::mir::globals_view(final(self).globals@),
            ),
            r matches Ok(ns) ==> crate::mir::nodes_view(ns@) == spec_lower_list(
                es@,
                *prog,
                res.view(),
            ) && gmap_completes(
                crate::mir::globals_view(old(self).globals@),
                crate::mir::globals_view(final(self).globals@),
            ),
            r matches Err(e) ==> e == Error::DepthLimit,
            (r matches Ok(_)) <==> sd_list(
                es@,
                *prog,
                res.view(),
                fuel as nat,
                crate::mir::globals_view(old(self).globals@),
            ) is Some,
            r matches Ok(_) ==> Some(crate::mir::globals_view(final(self).globals@)) == sd_list(
                es@,
                *prog,
                res.view(),
                fuel as nat,
                crate::mir::globals_view(old(self).globals@),
            ),
        decreases fuel, *es, 0int,
    {
        let ghost g0 = crate::mir::globals_view(self.globals@);
        proof {
            hir::lemma_exprs_wf(es@, res_dom(res.view()), *prog);
        }
        let mut out: Vec<RawTypeNode> = Vec::new();
        let mut i: usize = 0;
        proof {
            assert(es@.subrange(0, 0) =~= Seq::<TypeExpr>::empty());
        }
        while i < es.len()
            invariant
                0 <= i <= es@.len(),
                self.entry == old(self).entry,
                lower_inv(*prog, *self),
                gmap_extends(g0, crate::mir::globals_view(self.globals@)),
                gmap_completes(g0, crate::mir::globals_view(self.globals@)),
                crate::mir::nodes_view(out@) == spec_lower_list(
                    es@.subrange(0, i as int),
                    *prog,
                    res.view(),
                ),
                Some(crate::mir::globals_view(self.globals@)) == sd_list(
                    es@.subrange(0, i as int),
                    *prog,
                    res.view(),
                    fuel as nat,
                    g0,
                ),
            decreases es@.len() - i,
        {
            proof {
                assert(decreases_to!(*es => es@));
                assert(decreases_to!(es@ => es@[i as int]));
            }
            let n = match self.instantiate_expr(prog, &es[i], res, fuel) {
                Ok(n) => n,
                Err(e) => {
                    proof {
                        let pre = es@.subrange(0, i as int);
                        let post = es@.subrange(0, i as int + 1);
                        assert(post.drop_last() =~= pre);
                        assert(post.last() == es@[i as int]);
                        assert(sd_list(post, *prog, res.view(), fuel as nat, g0) is None);
                        lemma_sd_list_prefix_none(
                            es@,
                            i as int + 1,
                            *prog,
                            res.view(),
                            fuel as nat,
                            g0,
                        );
                    }
                    return Err(e);
                },
            };
            proof {
                let pre = es@.subrange(0, i as int);
                let post = es@.subrange(0, i as int + 1);
                assert(post.drop_last() =~= pre);
                assert(post.last() == es@[i as int]);
                assert(out@.push(n).drop_last() =~= out@);
                assert(Some(crate::mir::globals_view(self.globals@)) == sd_list(
                    post,
                    *prog,
                    res.view(),
                    fuel as nat,
                    g0,
                ));
            }
            out.push(n);
            i += 1;
        }
        proof {
            assert(es@.subrange(0, es@.len() as int) =~= es@);
        }
        Ok(out)
    }

    /// Compile each arm's matcher and extractor and lower its body, in
    /// source order, around an already lowered scrutinee.
    #[verifier::loop_isolation(false)]
    fn instantiate_match(
        &mut self,
        prog: &hir::Program,
        pred: RawTypeNode,
        arms: &Vec<(TypeBinding, TypeExpr)>,
        res: &Resolver,
        fuel: u64,
    ) -> (r: Result<crate::mir::Expr, Error>)
        requires
            hir::prog_wf(*prog),
            hir::arms_wf(arms@, res_dom(res.view()), *prog),
            lower_inv(*prog, *old(self)),
        ensures
            final(self).entry == old(self).entry,
            lower_inv(*prog, *final(self)),
            gmap_extends(
                crate::mir::globals_view(old(self).globals@),
                crate::mir::globals_view(final(self).globals@),
            ),
            r matches Ok(x) ==> x.view() == (crate::mir::ExprV::Match(
                pred.view(),
                spec_lower_arms(arms@, *prog, res.view()),
            )) && gmap_completes(
                crate::mir::globals_view(old(self).globals@),
                crate::mir::globals_view(final(self).globals@),
            ),
            r matches Err(e) ==> e == Error::DepthLimit,
            (r matches Ok(_)) <==> sd_arms(
                arms@,
                *prog,
                res.view(),
                fuel as nat,
                crate::mir::globals_view(old(self).globals@),
            ) is Some,
            r matches Ok(_) ==> Some(crate::mir::globals_view(final(self).globals@)) == sd_arms(
                arms@,
                *prog,
                res.view(),
                fuel as nat,
                crate::mir::globals_view(old(self).globals@),
            ),
        decreases fuel, *arms, 0int,
    {
        let ghost g0 = crate::mir::globals_view(self.globals@);
        proof {
            hir::lemma_arms_wf(arms@, res_dom(res.view()), *prog);
        }
        let mut out: Vec<(Matcher, Extractor, RawTypeNode)> = Vec::new();
        let mut i: usize = 0;
        proof {
            assert(arms@.subrange(0, 0) =~= Seq::<(TypeBinding, TypeExpr)>::empty());
        }
        while i < arms.len()
            invariant
                0 <= i <= arms@.len(),
                self.entry == old(self).entry,
                lower_inv(*prog, *self),
                gmap_extends(g0, crate::mir::globals_view(self.globals@)),
                gmap_completes(g0, crate::mir::globals_view(self.globals@)),
                crate::mir::match_arms_view(out@) == spec_lower_arms(
                    arms@.subrange(0, i as int),
                    *prog,
                    res.view(),
                ),
                Some(crate::mir::globals_view(self.globals@)) == sd_arms(
                    arms@.subrange(0, i as int),
                    *prog,
                    res.view(),
                    fuel as nat,
                    g0,
                ),
            decreases arms@.len() - i,
        {
            proof {
                assert(decreases_to!(*arms => arms@));
                assert(decreases_to!(arms@ => arms@[i as int]));
                assert(decreases_to!(arms@[i as int] => arms@[i as int].1));
            }
            let m = arms[i].0.make_matcher(prog);
            let x = arms[i].0.make_extractor(prog);
            let n = match self.instantiate_expr(prog, &arms[i].1, res, fuel) {
                Ok(n) => n,
                Err(e) => {
                    proof {
                        let pre = arms@.subrange(0, i as int);
                        let post = arms@.subrange(0, i as int + 1);
                        assert(post.drop_last() =~= pre);
                        assert(post.last() == arms@[i as int]);
                        assert(sd_arms(post, *prog, res.view(), fuel as nat, g0) is None);
                        lemma_sd_arms_prefix_none(
                            arms@,
                            i as int + 1,
                            *prog,
                            res.view(),
                            fuel as nat,
                            g0,
                        );
                    }
                    return Err(e);
                },
            };
            let arm = (m, x, n);
            proof {
                let pre = arms@.subrange(0, i as int);
                let post = arms@.subrange(0, i as int + 1);
                assert(post.drop_last() =~= pre);
                assert(post.last() == arms@[i as int]);
                assert(out@.push(arm).drop_last() =~= out@);
                assert(Some(crate::mir::globals_view(self.globals@)) == sd_arms(
                    post,
                    *prog,
                    res.view(),
                    fuel as nat,
                    g0,
                ));
            }
            out.push(arm);
            i += 1;
        }
        proof {
            assert(arms@.subrange(0, arms@.len() as int) =~= arms@);
        }
        Ok(crate::mir::Expr::Match(pred, out))
    }

    /// Produce, memoized, the one lowered body of `(name, params)`. A
    /// placeholder goes in before the body is lowered, so a recursive
    /// reference to the same instantiation resolves to the same identity
    /// without re-entering; the placeholder is overwritten once the body
    /// is done.
    #[verifier::loop_isolation(false)]
    #[verifier::rlimit(60)]
    fn instantiate_def(
        &mut self,
        prog: &hir::Program,
        name: Ident,
        params: Vec<RawType>,
        fuel: u64,
    ) -> (r: Result<DefId, Error>)
        requires
            hir::prog_wf(*prog),
            lower_inv(*prog, *old(self)),
            match hir::spec_def_lookup(prog.defs@, ident_str(name)) {
                Some(def) => def.generics@.len() == params@.len(),
                None => true,
            },
        ensures
            final(self).entry == old(self).entry,
            lower_inv(*prog, *final(self)),
            gmap_extends(
                crate::mir::globals_view(old(self).globals@),
                crate::mir::globals_view(final(self).globals@),
            ),
            r matches Ok(id) ==> id.view() == (DefIdV {
                name: ident_str(name),
                args: raw_types_view(params@),
            }) && gmap_contains(crate::mir::globals_view(final(self).globals@), id.view())
                && gmap_completes(
                crate::mir::globals_view(old(self).globals@),
                crate::mir::globals_view(final(self).globals@),
            ),
            gmap_contains(
                crate::mir::globals_view(old(self).globals@),
                DefIdV { name: ident_str(name), args: raw_types_view(params@) },
            ) ==> ((r matches Ok(_)) && *final(self) == *old(self)),
            r matches Err(e) ==> e == Error::DepthLimit || (e == Error::EntryNotFound(name)
                && hir::spec_def_lookup(prog.defs@, ident_str(name)) is None),
            (r matches Err(e) && e == Error::DepthLimit) ==> hir::spec_def_lookup(
                prog.defs@,
                ident_str(name),
            ) is Some,
            (!gmap_contains(
                crate::mir::globals_view(old(self).globals@),
                DefIdV { name: ident_str(name), args: raw_types_view(params@) },
            ) && hir::spec_def_lookup(prog.defs@, ident_str(name)) is None) ==> r == Err::<
                DefId,
                Error,
            >(Error::EntryNotFound(name)),
            (r matches Ok(_)) <==> sd_def(
                *prog,
                ident_str(name),
                raw_types_view(params@),
                fuel as nat,
                crate::mir::globals_view(old(self).globals@),
            ) is Some,
            r matches Ok(_) ==> Some(crate::mir::globals_view(final(self).globals@)) == sd_def(
                *prog,
                ident_str(name),
                raw_types_view(params@),
                fuel as nat,
                crate::mir::globals_view(old(self).globals@),
            ),
        decreases fuel, *prog, 0int,
    {
        let ghost g0 = crate::mir::globals_view(self.globals@);
        let ghost key = DefIdV { name: ident_str(name), args: raw_types_view(params@) };
        let def_id = DefId { name, args: clone_raw_types(&params) };
        proof {
            assert(def_id.view() =~= key);
        }
        if let Some(idx) = find_global(&self.globals, &def_id) {
            proof {
                assert(crate::mir::globals_view(self.globals@)[idx as int].0 == key);
                assert(gmap_contains(crate::mir::globals_view(self.globals@), key));
                assert(sd_def(*prog, ident_str(name), raw_types_view(params@), fuel as nat, g0)
                    == Some(g0));
            }
            return Ok(def_id);
        }
        // Insert the in-progress placeholder before lowering the body, so
        // recursive references land on this same entry.
        let idx = self.globals.len();
        self.globals.push((def_id.clone(), None));
        proof {
            assert(crate::mir::globals_view(self.globals@) =~= g0.push((key, None)));
        }
        let ghost g1 = crate::mir::globals_view(self.globals@);
        let def = match hir::def_lookup(&prog.defs, name) {
            Some(def) => def,
            None => {
                proof {
                    assert(sd_def(*prog, ident_str(name), raw_types_view(params@), fuel as nat, g0)
                        is None);
                }
                return Err(Error::EntryNotFound(name));
            },
        };
        if fuel == 0 {
            proof {
                assert(sd_def(*prog, ident_str(name), raw_types_view(params@), fuel as nat, g0)
                    is None);
            }
            return Err(Error::DepthLimit);
        }
        let mut entries: Vec<(Ident, RawType)> = Vec::new();
        let mut i: usize = 0;
        while i < def.generics.len()
            invariant
                0 <= i <= def.generics@.len(),
                def.generics@.len() == params@.len(),
                entries@.len() == i,
                forall|j: int|
                    0 <= j < i ==> (#[trigger] entries@[j]).0 == def.generics@[j]
                        && entries@[j].1.view() == raw_types_view(params@)[j],
            decreases def.generics@.len() - i,
        {
            proof {
                crate::mir::lemma_raw_types_view(params@);
            }
            entries.push((def.generics[i], params[i].clone()));
            i += 1;
        }
        let resolver = Resolver { entries };
        proof {
            crate::mir::lemma_raw_types_view(params@);
            assert(resolver.view() =~= spec_resolver_of(def.generics@, key.args));
            lemma_resolver_dom(def.generics@, key.args);
            lemma_def_lookup_found(prog.defs@, ident_str(name));
            let w = choose|w: int|
                0 <= w < prog.defs@.len() && ident_str((#[trigger] prog.defs@[w]).0) == ident_str(
                    name,
                ) && prog.defs@[w].1 == hir::spec_def_lookup(
                    prog.defs@,
                    ident_str(name),
                ).unwrap();
            assert(hir::expr_wf(
                prog.defs@[w].1.body,
                hir::gen_set(prog.defs@[w].1.generics@),
                *prog,
            ));
            assert(hir::expr_wf(def.body, res_dom(resolver.view()), *prog));
        }
        let body = match self.instantiate_expr(prog, &def.body, &resolver, fuel - 1) {
            Ok(b) => b,
            Err(e) => {
                proof {
                    assert(g1 == g0.push((key, None)));
                    assert(sd_expr(
                        def.body,
                        *prog,
                        spec_resolver_of(def.generics@, key.args),
                        (fuel - 1) as nat,
                        g1,
                    ) is None);
                    assert(sd_def(*prog, ident_str(name), raw_types_view(params@), fuel as nat, g0)
                        is None);
                }
                return Err(e);
            },
        };
        let ghost g2 = crate::mir::globals_view(self.globals@);
        let _ = self.globals.remove(idx);
        self.globals.insert(idx, (def_id.clone(), Some(body)));
        proof {
            assert(crate::mir::globals_view(self.globals@) =~= g2.update(
                idx as int,
                (key, Some(body.view())),
            ));
            assert(body.view() == spec_lower(def.body, *prog, spec_resolver_of(
                def.generics@,
                key.args,
            )));
            assert(entry_ok(*prog, key, Some(body.view())));
            let gf = crate::mir::globals_view(self.globals@);
            assert(gf[idx as int].0 == key);
            assert(gmap_contains(gf, key));
            assert(forall|i: int| 0 <= i < g0.len() ==> gf[i] == g2[i] && g2[i] == g1[i] && g1[i] == g0[i]);
            assert forall|i: int| 0 <= i < gf.len() && (#[trigger] gf[i]).1 is None implies i
                < g0.len() && g0[i].1 is None by {
                assert(gf[i] == g2.update(idx as int, (key, Some(body.view())))[i]);
                assert(i != idx);
                assert(g2[i].1 is None);
                assert(i < g1.len() && g1[i].1 is None);
            }
            assert(g2[idx as int] == g1[idx as int]);
            assert(forall|i: int| 0 <= i < gf.len() ==> (#[trigger] gf[i]).0 == g2[i].0);
            assert(gkeys_distinct(gf));
            assert forall|i: int| 0 <= i < gf.len() implies entry_ok(
                *prog,
                (#[trigger] gf[i]).0,
                gf[i].1,
            ) by {
                if i != idx {
                    assert(gf[i] == g2[i]);
                }
            }
            assert(g1 == g0.push((key, None)));
            assert(Some(g2) == sd_expr(
                def.body,
                *prog,
                spec_resolver_of(def.generics@, key.args),
                (fuel - 1) as nat,
                g1,
            ));
            assert(sd_def(*prog, ident_str(name), raw_types_view(params@), fuel as nat, g0)
                == Some(g2.update(g0.len() as int, (key, Some(spec_lower(
                def.body,
                *prog,
                spec_resolver_of(def.generics@, key.args),
            ))))));
            assert(gf == g2.update(idx as int, (key, Some(body.view()))));
            assert(Some(gf) == sd_def(
                *prog,
                ident_str(name),
                raw_types_view(params@),
                fuel as nat,
                g0,
            ));
        }
        Ok(def_id)
    }

    /// Lower a whole program from its entry symbol: instantiate the entry
    /// definition with no type arguments and, transitively, every global
    /// it demands. On success the map holds exactly one completed body per
    /// instantiated definition, none left in progress.
    pub fn from_hir(prog: &hir::Program, entry: Ident) -> (r: Result<Self, Error>)
        requires
            hir::prog_wf(*prog),
            match hir::spec_def_lookup(prog.defs@, ident_str(entry)) {
                Some(def) => def.generics@.len() == 0,
                None => true,
            },
        ensures
            match r {
                Ok(p) => {
                    &&& p.entry.view() == (DefIdV { name: ident_str(entry), args: Seq::empty() })
                    &&& lower_inv(*prog, p)
                    &&& gmap_contains(crate::mir::globals_view(p.globals@), p.entry.view())
                    &&& forall|i: int|
                        0 <= i < crate::mir::globals_view(p.globals@).len() ==> (
                        #[trigger] crate::mir::globals_view(p.globals@)[i]).1 is Some
                },
                Err(e) => e == Error::DepthLimit || (e == Error::EntryNotFound(entry)
                    && hir::spec_def_lookup(prog.defs@, ident_str(entry)) is None),
            },
            (r matches Ok(_)) <==> sd_def(
                *prog,
                ident_str(entry),
                Seq::empty(),
                u64::MAX as nat,
                Seq::empty(),
            ) is Some,
            r matches Ok(p) ==> Some(crate::mir::globals_view(p.globals@)) == sd_def(
                *prog,
                ident_str(entry),
                Seq::empty(),
                u64::MAX as nat,
                Seq::empty(),
            ),
            hir::spec_def_lookup(prog.defs@, ident_str(entry)) is Some ==> !(r matches Err(e)
                && e == Error::EntryNotFound(entry)),
            r matches Ok(p) ==> map_closed(crate::mir::globals_view(p.globals@)),
    {
        let mut this = crate::mir::Program {
            entry: DefId { name: entry, args: Vec::new() },
            globals: Vec::new(),
        };
        proof {
            assert(raw_types_view(Seq::<RawType>::empty()) =~= Seq::<RawTypeV>::empty());
            assert(this.entry.view() =~= (DefIdV {
                name: ident_str(entry),
                args: Seq::empty(),
            }));
            assert(crate::mir::globals_view(this.globals@)
                =~= Seq::<(DefIdV, Option<crate::mir::NodeV>)>::empty());
        }
        match this.instantiate_def(prog, entry, Vec::new(), u64::MAX) {
            Ok(_id) => {
                proof {
                    lemma_sd_def_closed(
                        *prog,
                        ident_str(entry),
                        Seq::empty(),
                        u64::MAX as nat,
                        Seq::empty(),
                    );
                    assert(map_closed(Seq::<(DefIdV, Option<crate::mir::NodeV>)>::empty()));
                }
                Ok(this)
            },
            Err(e) => Err(e),
        }
    }

    /// The completed global map as pairs, every body present; meaningful
    /// once lowering has finished, which guarantees no placeholder
    /// remains.
    #[verifier::loop_isolation(false)]
    pub fn globals(self) -> (r: Vec<(DefId, RawTypeNode)>)
        requires
            forall|i: int|
                0 <= i < crate::mir::globals_view(self.globals@).len() ==> (
                #[trigger] crate::mir::globals_view(self.globals@)[i]).1 is Some,
        ensures
            r@.len() == self.globals@.len(),
            forall|i: int|
                0 <= i < r@.len() ==> (#[trigger] r@[i]).0.view()
                    == crate::mir::globals_view(self.globals@)[i].0 && Some(r@[i].1.view())
                    == crate::mir::globals_view(self.globals@)[i].1,
    {
        let ghost orig = self.globals@;
        let mut gs = self.globals;
        let mut out: Vec<(DefId, RawTypeNode)> = Vec::new();
        proof {
            assert(gs@ =~= orig.skip(0));
        }
        while gs.len() > 0
            invariant
                out@.len() + gs@.len() == orig.len(),
                gs@ == orig.skip(out@.len() as int),
                forall|i: int|
                    0 <= i < out@.len() ==> (#[trigger] out@[i]).0.view()
                        == crate::mir::globals_view(orig)[i].0 && Some(out@[i].1.view())
                        == crate::mir::globals_view(orig)[i].1,
            decreases gs@.len(),
        {
            let ghost k = out@.len() as int;
            let (id, b) = gs.remove(0);
            proof {
                assert(orig.skip(k)[0] == orig[k]);
                assert(orig.skip(k).remove(0) =~= orig.skip(k + 1));
            }
            match b {
                Some(n) => {
                    out.push((id, n));
                },
                None => {
                    proof {
                        assert(crate::mir::globals_view(orig)[k].1 is None);
                        assert(false);
                    }
                },
            }
        }
        out
    }
}

} // verus!
