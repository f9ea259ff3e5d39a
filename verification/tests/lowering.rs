use mir_lower::hir::{
    BinaryOp, Data, Def, Expr, Literal, Pat, Primitive, Program as HirProgram, Span, Ty,
    TypeBinding, TypeExpr,
};
use mir_lower::intern::{ident_eq, ident_string, new_ident, Ident};
use mir_lower::lower::{instantiate_type, Resolver};
use mir_lower::mir::{Error, Expr as MirExpr, Extractor, Matcher, Program, RawType, RawTypeNode};

fn id(s: &str) -> Ident {
    new_ident(s.to_string())
}

fn sp() -> Span {
    Span { start: 0, end: 0 }
}

fn te(e: Expr, t: Ty) -> TypeExpr {
    TypeExpr { expr: Box::new(e), ty: t, span: sp() }
}

fn num() -> Ty {
    Ty::Primitive(Primitive::Number)
}

fn boolean() -> Ty {
    Ty::Primitive(Primitive::Boolean)
}

fn wild() -> TypeBinding {
    TypeBinding { pat: Box::new(Pat::Wildcard), binding: None }
}

fn bind(name: &str) -> TypeBinding {
    TypeBinding { pat: Box::new(Pat::Wildcard), binding: Some(id(name)) }
}

fn prog_with_main(datas: Vec<Data>, body: TypeExpr) -> HirProgram {
    HirProgram {
        defs: vec![(id("main"), Def { generics: Vec::new(), body })],
        datas,
    }
}

fn entry_body(p: Program) -> RawTypeNode {
    let entry = p.entry.clone();
    let gs = p.globals();
    for (k, b) in gs {
        if k == entry {
            return b;
        }
    }
    panic!("entry body missing");
}

#[test]
fn intern_equality_follows_strings() {
    assert!(ident_eq(id("alpha"), id("alpha")));
    assert!(!ident_eq(id("alpha"), id("beta")));
    assert_eq!(ident_string(id("alpha")), "alpha".to_string());
}

#[test]
fn mangle_primitives_and_shapes() {
    assert_eq!(RawType::Primitive(Primitive::Number).mangle(), "Num");
    assert_eq!(RawType::Primitive(Primitive::Boolean).mangle(), "Bool");
    assert_eq!(RawType::Primitive(Primitive::Text).mangle(), "Str");
    let list = RawType::List(Box::new(RawType::Primitive(Primitive::Boolean)));
    assert_eq!(list.mangle(), "[Bool]");
    let product = RawType::Product(vec![
        RawType::Primitive(Primitive::Number),
        RawType::Primitive(Primitive::Boolean),
    ]);
    assert_eq!(product.mangle(), "(Num, Bool)");
    let sum = RawType::Sum(vec![
        RawType::Primitive(Primitive::Number),
        RawType::Primitive(Primitive::Boolean),
    ]);
    assert_eq!(sum.mangle(), "(Num | Bool)");
    let func = RawType::Func(
        Box::new(RawType::Primitive(Primitive::Number)),
        Box::new(RawType::Primitive(Primitive::Boolean)),
    );
    assert_eq!(func.mangle(), "Num -> Bool");
    let boxed = RawType::Boxed(id("Maybe"), vec![RawType::Primitive(Primitive::Number)]);
    assert_eq!(boxed.mangle(), "Maybe Num");
    let bare = RawType::Boxed(id("Unit"), Vec::new());
    assert_eq!(bare.mangle(), "Unit");
    assert_eq!(RawType::Product(Vec::new()).mangle(), "()");
    assert_eq!(
        RawType::Product(vec![RawType::Primitive(Primitive::Number)]).mangle(),
        "(Num)"
    );
}

#[test]
fn matcher_refutability() {
    assert!(!Matcher::Wildcard.is_refutable());
    assert!(Matcher::Exactly(Literal::Number(3)).is_refutable());
    assert!(Matcher::List(Vec::new()).is_refutable());
    assert!(!Matcher::ListFront(Vec::new()).is_refutable());
    assert!(Matcher::ListFront(vec![Matcher::Wildcard]).is_refutable());
    assert!(!Matcher::Product(vec![Matcher::Wildcard, Matcher::Wildcard]).is_refutable());
    assert!(Matcher::Product(vec![
        Matcher::Wildcard,
        Matcher::Exactly(Literal::Boolean(true)),
    ])
    .is_refutable());
}

#[test]
fn extractor_reports_and_lists_bindings() {
    let none = Extractor::Just(None);
    assert!(!none.extracts_anything());
    let tail = Extractor::ListFront(
        Some(id("whole")),
        vec![Extractor::Just(Some(id("head")))],
        Some(id("rest")),
    );
    assert!(tail.extracts_anything());
    let names = tail.get_bindings();
    assert_eq!(names.len(), 3);
    assert_eq!(names[0], id("whole"));
    assert_eq!(names[1], id("rest"));
    assert_eq!(names[2], id("head"));
}

#[test]
fn single_variant_type_instantiates_to_boxed() {
    let datas = vec![Data {
        name: id("Wrap"),
        generics: Vec::new(),
        variants: vec![(id("Wrap"), num())],
    }];
    let prog = HirProgram { defs: Vec::new(), datas };
    let res = Resolver { entries: Vec::new() };
    let t = instantiate_type(&prog, &Ty::Data(0, Vec::new()), &res);
    assert_eq!(t, RawType::Boxed(id("Wrap"), Vec::new()));
}

#[test]
fn multi_variant_type_instantiates_to_sum_of_mangled_boxes() {
    let datas = vec![Data {
        name: id("Choice"),
        generics: Vec::new(),
        variants: vec![(id("This"), num()), (id("That"), boolean())],
    }];
    let prog = HirProgram { defs: Vec::new(), datas };
    let res = Resolver { entries: Vec::new() };
    let t = instantiate_type(&prog, &Ty::Data(0, Vec::new()), &res);
    assert_eq!(
        t,
        RawType::Sum(vec![
            RawType::Boxed(id("Choice::This"), Vec::new()),
            RawType::Boxed(id("Choice::That"), Vec::new()),
        ])
    );
}

#[test]
fn generic_data_arguments_resolve_through_the_resolver() {
    let datas = vec![Data {
        name: id("Maybe"),
        generics: vec![id("T")],
        variants: vec![(id("Just"), Ty::GenParam(id("T"))), (id("Nothing"), num())],
    }];
    let prog = HirProgram { defs: Vec::new(), datas };
    let res = Resolver {
        entries: vec![(id("T"), RawType::Primitive(Primitive::Boolean))],
    };
    let t = instantiate_type(
        &prog,
        &Ty::Data(0, vec![Ty::GenParam(id("T"))]),
        &res,
    );
    assert_eq!(
        t,
        RawType::Sum(vec![
            RawType::Boxed(id("Maybe::Just"), vec![RawType::Primitive(Primitive::Boolean)]),
            RawType::Boxed(id("Maybe::Nothing"), vec![RawType::Primitive(Primitive::Boolean)]),
        ])
    );
}

#[test]
fn single_variant_constructor_elides() {
    let datas = vec![Data {
        name: id("Wrap"),
        generics: Vec::new(),
        variants: vec![(id("Wrap"), num())],
    }];
    let body = te(
        Expr::Constructor(0, 0, te(Expr::Literal(Literal::Number(5)), num())),
        Ty::Data(0, Vec::new()),
    );
    let p = Program::from_hir(&prog_with_main(datas, body), id("main")).unwrap();
    let node = entry_body(p);
    // The constructor vanished: the inner literal, with its own type and
    // position, is the whole lowered body.
    assert_eq!(*node.expr, MirExpr::Literal(Literal::Number(5)));
    assert_eq!(node.ty, RawType::Primitive(Primitive::Number));
}

#[test]
fn multi_variant_constructor_carries_its_tag() {
    let datas = vec![Data {
        name: id("E"),
        generics: Vec::new(),
        variants: vec![(id("V0"), num()), (id("V1"), num()), (id("V2"), num())],
    }];
    let body = te(
        Expr::Constructor(0, 1, te(Expr::Literal(Literal::Number(9)), num())),
        Ty::Data(0, Vec::new()),
    );
    let p = Program::from_hir(&prog_with_main(datas, body), id("main")).unwrap();
    let node = entry_body(p);
    match *node.expr {
        MirExpr::Tuple(items) => {
            assert_eq!(items.len(), 2);
            assert_eq!(*items[0].expr, MirExpr::Literal(Literal::Number(1)));
            assert_eq!(items[0].ty, RawType::Primitive(Primitive::Number));
            assert_eq!(*items[1].expr, MirExpr::Literal(Literal::Number(9)));
        },
        other => panic!("expected a tagged tuple, got {:?}", other),
    }
}

#[test]
fn deconstruction_matchers_follow_variant_count() {
    let datas = vec![
        Data {
            name: id("Wrap"),
            generics: Vec::new(),
            variants: vec![(id("Wrap"), num())],
        },
        Data {
            name: id("E"),
            generics: Vec::new(),
            variants: vec![(id("V0"), num()), (id("V1"), num()), (id("V2"), num())],
        },
    ];
    let prog = HirProgram { defs: Vec::new(), datas };

    let single = TypeBinding {
        pat: Box::new(Pat::Deconstruct(0, 0, bind("x"))),
        binding: None,
    };
    assert_eq!(single.make_matcher(&prog), Matcher::Wildcard);
    assert_eq!(single.make_extractor(&prog), Extractor::Just(Some(id("x"))));

    let multi = TypeBinding {
        pat: Box::new(Pat::Deconstruct(1, 1, bind("y"))),
        binding: None,
    };
    assert_eq!(
        multi.make_matcher(&prog),
        Matcher::Product(vec![
            Matcher::Exactly(Literal::Number(1)),
            Matcher::Wildcard,
        ])
    );
    assert_eq!(
        multi.make_extractor(&prog),
        Extractor::Product(None, vec![
            Extractor::Just(None),
            Extractor::Just(Some(id("y"))),
        ])
    );
}

#[test]
fn free_variables_of_nested_closures() {
    // fn x => fn y => x + y
    let inner = te(
        Expr::Func(
            bind("y"),
            te(
                Expr::Binary(
                    BinaryOp::Add,
                    te(Expr::Local(id("x")), num()),
                    te(Expr::Local(id("y")), num()),
                ),
                num(),
            ),
        ),
        Ty::Func(Box::new(num()), Box::new(num())),
    );
    // The inner closure reaches out for x alone.
    let inner_free = inner.get_env();
    assert_eq!(inner_free.len(), 1);
    assert_eq!(inner_free[0], id("x"));

    let outer = te(
        Expr::Func(bind("x"), inner),
        Ty::Func(Box::new(num()), Box::new(Ty::Func(Box::new(num()), Box::new(num())))),
    );
    // The whole expression is closed.
    assert_eq!(outer.get_env().len(), 0);

    // Lowering records the same capture lists.
    let p = Program::from_hir(&prog_with_main(Vec::new(), outer), id("main")).unwrap();
    let node = entry_body(p);
    match *node.expr {
        MirExpr::Func(_, env, body) => {
            assert_eq!(env.len(), 0);
            match *body.expr {
                MirExpr::Func(_, inner_env, _) => {
                    assert_eq!(inner_env.len(), 1);
                    assert_eq!(inner_env[0], id("x"));
                },
                other => panic!("expected a nested closure, got {:?}", other),
            }
        },
        other => panic!("expected a closure, got {:?}", other),
    }
}

#[test]
fn field_access_and_update_use_declared_order() {
    fn record_ty() -> Ty {
        Ty::Record(vec![(id("a"), num()), (id("b"), num()), (id("f"), num())])
    }
    let access = te(
        Expr::Access(te(Expr::Local(id("r")), record_ty()), id("f")),
        num(),
    );
    let p = Program::from_hir(&prog_with_main(Vec::new(), access), id("main")).unwrap();
    let node = entry_body(p);
    match *node.expr {
        MirExpr::Access(_, idx) => assert_eq!(idx, 2),
        other => panic!("expected a field access, got {:?}", other),
    }

    let update = te(
        Expr::Update(
            te(Expr::Local(id("r")), record_ty()),
            id("f"),
            te(Expr::Literal(Literal::Number(1)), num()),
        ),
        record_ty(),
    );
    let p = Program::from_hir(&prog_with_main(Vec::new(), update), id("main")).unwrap();
    let node = entry_body(p);
    match *node.expr {
        MirExpr::Update(_, idx, name, _) => {
            assert_eq!(idx, 2);
            assert_eq!(name, id("f"));
        },
        other => panic!("expected a field update, got {:?}", other),
    }
}

#[test]
fn monomorphization_collapses_equal_instantiations() {
    // idf is generic; main mentions idf<Num> twice and idf<Bool> once.
    let idf = Def {
        generics: vec![id("T")],
        body: te(Expr::Local(id("v")), Ty::GenParam(id("T"))),
    };
    let main = Def {
        generics: Vec::new(),
        body: te(
            Expr::Tuple(vec![
                te(Expr::Global(id("idf"), vec![num()]), num()),
                te(Expr::Global(id("idf"), vec![num()]), num()),
                te(Expr::Global(id("idf"), vec![boolean()]), boolean()),
            ]),
            Ty::Tuple(vec![num(), num(), boolean()]),
        ),
    };
    let prog = HirProgram {
        defs: vec![(id("main"), main), (id("idf"), idf)],
        datas: Vec::new(),
    };
    let p = Program::from_hir(&prog, id("main")).unwrap();
    let entry = p.entry.clone();
    let gs = p.globals();
    // main, idf<Num>, idf<Bool>: one body per distinct instantiation.
    assert_eq!(gs.len(), 3);
    let mut body = None;
    for (k, b) in gs {
        if k == entry {
            body = Some(b);
        }
    }
    match *body.expect("entry body missing").expr {
        MirExpr::Tuple(items) => {
            let ids: Vec<_> = items
                .iter()
                .map(|n| match &*n.expr {
                    MirExpr::GetGlobal(d) => d,
                    other => panic!("expected a global reference, got {:?}", other),
                })
                .collect();
            assert_eq!(ids[0], ids[1]);
            assert_ne!(ids[0], ids[2]);
        },
        other => panic!("expected a tuple, got {:?}", other),
    }
}

#[test]
fn recursive_definitions_instantiate_once() {
    // rec calls itself; even and odd call each other.
    let rec = Def {
        generics: Vec::new(),
        body: te(Expr::Global(id("rec"), Vec::new()), num()),
    };
    let prog = HirProgram { defs: vec![(id("rec"), rec)], datas: Vec::new() };
    let p = Program::from_hir(&prog, id("rec")).unwrap();
    let entry = p.entry.clone();
    let gs = p.globals();
    assert_eq!(gs.len(), 1);
    assert_eq!(gs[0].0, entry);
    match &*gs[0].1.expr {
        MirExpr::GetGlobal(d) => assert_eq!(*d, entry),
        other => panic!("expected a self reference, got {:?}", other),
    }

    let even = Def {
        generics: Vec::new(),
        body: te(Expr::Global(id("odd"), Vec::new()), num()),
    };
    let odd = Def {
        generics: Vec::new(),
        body: te(Expr::Global(id("even"), Vec::new()), num()),
    };
    let prog = HirProgram {
        defs: vec![(id("even"), even), (id("odd"), odd)],
        datas: Vec::new(),
    };
    let p = Program::from_hir(&prog, id("even")).unwrap();
    let gs = p.globals();
    assert_eq!(gs.len(), 2);
}

#[test]
fn missing_entry_point_is_the_one_error() {
    let prog = HirProgram { defs: Vec::new(), datas: Vec::new() };
    match Program::from_hir(&prog, id("main")) {
        Err(Error::EntryNotFound(name)) => assert_eq!(name, id("main")),
        other => panic!("expected the missing-entry error, got {:?}", other),
    }
}

#[test]
fn match_arms_carry_aligned_matchers_and_extractors() {
    let datas = vec![Data {
        name: id("E"),
        generics: Vec::new(),
        variants: vec![(id("V0"), num()), (id("V1"), num())],
    }];
    let arm_binding = TypeBinding {
        pat: Box::new(Pat::Deconstruct(0, 1, bind("inner"))),
        binding: None,
    };
    let body = te(
        Expr::Match(
            te(Expr::Local(id("s")), Ty::Data(0, Vec::new())),
            vec![
                (arm_binding, te(Expr::Literal(Literal::Number(1)), num())),
                (wild(), te(Expr::Literal(Literal::Number(0)), num())),
            ],
        ),
        num(),
    );
    let p = Program::from_hir(&prog_with_main(datas, body), id("main")).unwrap();
    let node = entry_body(p);
    match *node.expr {
        MirExpr::Match(_, arms) => {
            assert_eq!(arms.len(), 2);
            match (&arms[0].0, &arms[0].1) {
                (Matcher::Product(ms), Extractor::Product(None, xs)) => {
                    assert_eq!(ms.len(), xs.len());
                    assert_eq!(ms[0], Matcher::Exactly(Literal::Number(1)));
                    assert_eq!(xs[0], Extractor::Just(None));
                },
                other => panic!("expected aligned product pairs, got {:?}", other),
            }
            assert_eq!(arms[1].0, Matcher::Wildcard);
        },
        other => panic!("expected a match, got {:?}", other),
    }
}

#[test]
fn update_shadows_the_field_name_for_the_value_only() {
    // In `r.{ f: f + 1 }` the name f is temporarily bound while the value
    // expression is analyzed; only r is free.
    fn record_ty() -> Ty {
        Ty::Record(vec![(id("f"), num())])
    }
    let update = te(
        Expr::Update(
            te(Expr::Local(id("r")), record_ty()),
            id("f"),
            te(Expr::Local(id("f")), num()),
        ),
        record_ty(),
    );
    let free = update.get_env();
    assert_eq!(free.len(), 1);
    assert_eq!(free[0], id("r"));

    // The record expression itself is not under that binding: a local that
    // happens to carry the field's name stays free there.
    let update = te(
        Expr::Update(
            te(Expr::Local(id("f")), record_ty()),
            id("f"),
            te(Expr::Literal(Literal::Number(1)), num()),
        ),
        record_ty(),
    );
    let free = update.get_env();
    assert_eq!(free.len(), 1);
    assert_eq!(free[0], id("f"));
}
