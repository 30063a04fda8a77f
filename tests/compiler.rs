use smodel::compiler::smodel;
use smodel::host::Diagnostic;
use smodel::runtime::SModelError;
use smodel::symbol::{LmtFactory, Symbol};
use smodel::tree::{
    AttrKind, Attribute, Delim, FnArg, Generics, Receiver, SmType, SmTypeConstructor, SmTypeField,
    SmTypeMethod, SmTypeTree, Token, TypedArg,
};

fn ty(name: &str, inherits: Option<&str>) -> SmType {
    SmType {
        attributes: vec![],
        visibility: "pub".to_string(),
        name: name.to_string(),
        inherits: inherits.map(|s| s.to_string()),
        fields: vec![],
        constructor: None,
        methods: vec![],
    }
}

fn no_generics() -> Generics {
    Generics { params: String::new(), where_clause: String::new() }
}

fn self_ref() -> FnArg {
    FnArg::Receiver(Receiver {
        has_attrs: false,
        reference: true,
        has_lifetime: false,
        mutability: false,
        text: "&self".to_string(),
    })
}

fn typed(name: &str, ty: &str) -> FnArg {
    FnArg::Typed(TypedArg { ident: Some(name.to_string()), text: format!("{}: {}", name, ty) })
}

fn ident(s: &str) -> Token {
    Token::Ident(s.to_string())
}

fn punct(s: &str) -> Token {
    Token::Punct(s.to_string(), false)
}

fn lit(s: &str) -> Token {
    Token::Literal(s.to_string())
}

fn method(name: &str, is_override: bool, statements: Vec<Token>) -> SmTypeMethod {
    SmTypeMethod {
        attributes: vec![],
        visibility: "pub".to_string(),
        is_override,
        name: name.to_string(),
        generics: no_generics(),
        inputs: vec![self_ref()],
        result_type: Some("String".to_string()),
        statements,
    }
}

fn tree(data_types: Vec<SmType>) -> SmTypeTree {
    SmTypeTree {
        smodel_path: "::smodel".to_string(),
        arena_type_name: "Arena".to_string(),
        data_types,
    }
}

/// `super.NAME()`
fn super_call(name: &str) -> Vec<Token> {
    vec![ident("super"), punct("."), ident(name), Token::Open(Delim::Paren), Token::Close(Delim::Paren)]
}

/// Root `R` with `name()` returning `""`; `A: R`; `B: A` and `C: A`
/// overriding `name()`; `B` also overrides `describe()`, calling super.
fn scenario() -> SmTypeTree {
    let mut r = ty("R", None);
    r.methods.push(method("name", false, vec![lit("\"\""), punct("."), ident("into"), Token::Open(Delim::Paren), Token::Close(Delim::Paren)]));
    r.methods.push(method("describe", false, vec![lit("\"r\""), punct("."), ident("into"), Token::Open(Delim::Paren), Token::Close(Delim::Paren)]));
    let a = ty("A", Some("R"));
    let mut b = ty("B", Some("A"));
    b.methods.push(method("name", true, vec![lit("\"B\""), punct("."), ident("into"), Token::Open(Delim::Paren), Token::Close(Delim::Paren)]));
    let mut body = vec![ident("format"), punct("!"), Token::Open(Delim::Paren), lit("\"B{}\""), punct(",")];
    body.extend(super_call("describe"));
    body.push(Token::Close(Delim::Paren));
    b.methods.push(method("describe", true, body));
    let mut c = ty("C", Some("A"));
    c.methods.push(method("name", true, vec![lit("\"C\""), punct("."), ident("into"), Token::Open(Delim::Paren), Token::Close(Delim::Paren)]));
    tree(vec![r, a, b, c])
}

#[test]
fn empty_declaration_is_rejected() {
    let mut t = tree(vec![]);
    let r = smodel(&mut t);
    match r {
        Err(d) => {
            assert_eq!(d.len(), 1);
            assert!(matches!(d[0], Diagnostic::NoDataTypes));
        },
        Ok(_) => panic!("expected an error"),
    }
}

#[test]
fn first_type_must_not_inherit() {
    let mut t = tree(vec![ty("R", Some("X"))]);
    match smodel(&mut t) {
        Err(d) => assert!(matches!(&d[0], Diagnostic::FirstTypeInherits(n) if n == "R")),
        Ok(_) => panic!("expected an error"),
    }
}

#[test]
fn later_type_must_inherit() {
    let mut t = tree(vec![ty("R", None), ty("A", Some("R")), ty("B", None)]);
    match smodel(&mut t) {
        Err(d) => {
            assert_eq!(d.len(), 1);
            assert!(matches!(&d[0], Diagnostic::BaseRequired(n) if n == "B"));
        },
        Ok(_) => panic!("expected an error"),
    }
}

#[test]
fn base_must_be_declared_earlier() {
    let mut t = tree(vec![ty("R", None), ty("A", Some("B")), ty("B", Some("R"))]);
    match smodel(&mut t) {
        Err(d) => assert!(matches!(&d[0], Diagnostic::BaseNotFound(n) if n == "B")),
        Ok(_) => panic!("expected an error"),
    }
}

#[test]
fn type_names_must_be_unique() {
    let mut t = tree(vec![ty("R", None), ty("A", Some("R")), ty("A", Some("R"))]);
    match smodel(&mut t) {
        Err(d) => assert!(matches!(&d[0], Diagnostic::Redefining(n) if n == "A")),
        Ok(_) => panic!("expected an error"),
    }
}

#[test]
fn field_names_must_be_unique() {
    let mut r = ty("R", None);
    for _ in 0..2 {
        r.fields.push(SmTypeField {
            is_ref: false,
            name: "x".to_string(),
            type_annotation: "i32".to_string(),
            default_value: "0".to_string(),
        });
    }
    let mut t = tree(vec![r]);
    match smodel(&mut t) {
        Err(d) => assert!(matches!(&d[0], Diagnostic::Redefining(n) if n == "x")),
        Ok(_) => panic!("expected an error"),
    }
}

#[test]
fn method_names_must_be_unique() {
    let mut r = ty("R", None);
    r.methods.push(method("m", false, vec![]));
    r.methods.push(method("m", false, vec![]));
    let mut t = tree(vec![r]);
    match smodel(&mut t) {
        Err(d) => assert!(matches!(&d[0], Diagnostic::Redefining(n) if n == "m")),
        Ok(_) => panic!("expected an error"),
    }
}

#[test]
fn override_needs_an_ancestor_method() {
    let mut a = ty("A", Some("R"));
    a.methods.push(method("m", true, vec![]));
    let mut t = tree(vec![ty("R", None), a]);
    match smodel(&mut t) {
        Err(d) => assert!(d.iter().any(|x| matches!(x, Diagnostic::NoMethodInBase(n) if n == "m"))),
        Ok(_) => panic!("expected an error"),
    }
}

#[test]
fn super_call_needs_an_ancestor_method() {
    let mut r = ty("R", None);
    r.methods.push(method("m", false, super_call("missing")));
    let mut t = tree(vec![r]);
    match smodel(&mut t) {
        Err(d) => assert!(d.iter().any(|x| matches!(x, Diagnostic::NoMethodInBase(n) if n == "missing"))),
        Ok(_) => panic!("expected an error"),
    }
}

#[test]
fn receiver_must_be_a_plain_reference() {
    let mut r = ty("R", None);
    let mut m = method("m", false, vec![]);
    m.inputs = vec![FnArg::Receiver(Receiver {
        has_attrs: false,
        reference: true,
        has_lifetime: false,
        mutability: true,
        text: "&mut self".to_string(),
    })];
    r.methods.push(m);
    let mut t = tree(vec![r]);
    match smodel(&mut t) {
        Err(d) => assert!(matches!(&d[0], Diagnostic::ReceiverNotRef(n) if n == "m")),
        Ok(_) => panic!("expected an error"),
    }
}

#[test]
fn constructor_parameter_must_be_a_name() {
    let mut r = ty("R", None);
    r.constructor = Some(SmTypeConstructor {
        attributes: vec![],
        visibility: "pub".to_string(),
        generics: no_generics(),
        name: "R".to_string(),
        inputs: vec![FnArg::Typed(TypedArg { ident: None, text: "(a, b): (i32, i32)".to_string() })],
        super_arguments: vec![],
        statements: String::new(),
    });
    let mut t = tree(vec![r]);
    match smodel(&mut t) {
        Err(d) => assert!(matches!(d[0], Diagnostic::PatternNotIdent)),
        Ok(_) => panic!("expected an error"),
    }
}

#[test]
fn output_starts_with_the_arena_and_ends_with_the_records() {
    let mut t = tree(vec![ty("R", None)]);
    let out = smodel(&mut t).ok().unwrap();
    assert!(out.starts_with("pub type Arena = ::smodel::Arena<__data__::__data_R>; "));
    assert!(out.ends_with(
        "#[allow(non_camel_case_types, non_snake_case)] mod __data__ { use super::*; pub enum __variant_R { __Nothing } pub struct __data_R { pub __variant: __variant_R, }  } "
    ));
}

#[test]
fn root_handle_compares_by_identity() {
    let mut t = tree(vec![ty("R", None)]);
    let out = smodel(&mut t).ok().unwrap();
    assert!(out.contains("#[derive(Clone)] pub struct R(::std::rc::Weak<__data__::__data_R>); impl PartialEq for R { fn eq(&self, other: &Self) -> bool { ::std::rc::Weak::ptr_eq(&self.0, &other.0) } }"));
    assert!(out.contains("impl Eq for R {} "));
}

#[test]
fn upcasts_and_downcasts_follow_the_chain() {
    let mut t = scenario();
    let out = smodel(&mut t).ok().unwrap();
    // Each type converts to each ancestor.
    assert!(out.contains("impl From<B> for A { fn from(v: B) -> Self { A(v.0.0.clone()) } } "));
    assert!(out.contains("impl From<B> for R { fn from(v: B) -> Self { R(v.0.0.0.clone()) } } "));
    // Each type converts fallibly to each descendant, testing each
    // discriminant from the root down.
    assert!(out.contains("impl TryFrom<R> for B { type Error = ::smodel::SModelError; fn try_from(v: R) -> Result<Self, Self::Error> { if let __data__::__variant_R::__data_A(_o) = &v.0.upgrade().unwrap().__variant { if let __data__::__variant_A::__data_B(_o) = &_o.__variant { Ok(B(A(R(v.0.clone())))) } else { Err(::smodel::SModelError::Contravariant) } } else { Err(::smodel::SModelError::Contravariant) } } } "));
    assert!(out.contains("impl TryFrom<A> for C "));
    assert!(!out.contains("impl TryFrom<B> for C "));
    assert!(!out.contains("impl TryFrom<C> for B "));
}

#[test]
fn record_discriminant_lists_direct_subtypes() {
    let mut t = scenario();
    let out = smodel(&mut t).ok().unwrap();
    assert!(out.contains("pub enum __variant_A { __data_B(::std::rc::Rc<__data_B>), __data_C(::std::rc::Rc<__data_C>), __Nothing } "));
    assert!(out.contains("pub enum __variant_R { __data_A(::std::rc::Rc<__data_A>), __Nothing } "));
}

#[test]
fn virtual_call_tests_most_derived_types_first() {
    let mut t = scenario();
    let out = smodel(&mut t).ok().unwrap();
    assert!(out.contains("pub fn name(&self, ) -> String  { if self.is::<A>() { if self.is::<B>() { return B(A(self.clone())).name(); } else if self.is::<C>() { return C(A(self.clone())).name(); }  } self.__nd_name() } "));
}

#[test]
fn super_call_goes_to_the_nearest_declaring_ancestor() {
    let mut t = scenario();
    let out = smodel(&mut t).ok().unwrap();
    // `B`'s `describe` calls `R`'s own implementation, two levels up,
    // without dispatch, and adds its own part first.
    assert!(out.contains("fn __nd_describe(&self, ) -> String  { format ! ( \"B{}\" , R::__nd_describe(&self.0.0, ) )  } "));
}

#[test]
fn constructor_allocates_defaults_before_running_initializers() {
    let mut r = ty("R", None);
    r.fields.push(SmTypeField {
        is_ref: false,
        name: "x".to_string(),
        type_annotation: "i32".to_string(),
        default_value: "5".to_string(),
    });
    let mut a = ty("A", Some("R"));
    a.fields.push(SmTypeField {
        is_ref: true,
        name: "s".to_string(),
        type_annotation: "String".to_string(),
        default_value: "String::new()".to_string(),
    });
    a.constructor = Some(SmTypeConstructor {
        attributes: vec![],
        visibility: "pub".to_string(),
        generics: no_generics(),
        name: "A".to_string(),
        inputs: vec![typed("s", "&str")],
        super_arguments: vec![],
        statements: "self.set_s(s.into());".to_string(),
    });
    let mut t = tree(vec![r, a]);
    let out = smodel(&mut t).ok().unwrap();
    assert!(out.contains("fn __ctor(&self, s: &str, )  { self.set_s(s.into()); } "));
    assert!(out.contains("pub fn new(arena: &mut Arena, s: &str, ) -> Self  { let __cto1 = A(R(::std::rc::Rc::downgrade(&arena.allocate(__data__::__data_R { x: ::std::cell::Cell::new(5), __variant: __data__::__variant_R::__data_A(::std::rc::Rc::new(__data__::__data_A { s: ::std::cell::RefCell::new(String::new()), __variant: __data__::__variant_A::__Nothing })) })).clone())); R::__ctor(&__cto1.0, ); __cto1.__ctor(s, ); __cto1 } "));
}

#[test]
fn field_accessors_descend_the_discriminants() {
    let mut r = ty("R", None);
    let mut a = ty("A", Some("R"));
    a.fields.push(SmTypeField {
        is_ref: false,
        name: "x".to_string(),
        type_annotation: "f64".to_string(),
        default_value: "0.0".to_string(),
    });
    r.fields.push(SmTypeField {
        is_ref: true,
        name: "n".to_string(),
        type_annotation: "String".to_string(),
        default_value: "String::new()".to_string(),
    });
    let mut t = tree(vec![r, a]);
    let out = smodel(&mut t).ok().unwrap();
    assert!(out.contains("#[allow(non_snake_case)] fn x(&self) -> f64 { (if let __data__::__variant_R::__data_A(o) = &self.0.0.upgrade().unwrap().__variant { (&o.x) } else { panic!() }).get() } #[allow(non_snake_case)] fn set_x(&self, v: f64) { (if let __data__::__variant_R::__data_A(o) = &self.0.0.upgrade().unwrap().__variant { (&o.x) } else { panic!() }).set(v); } "));
    assert!(out.contains("#[allow(non_snake_case)] fn n(&self) -> String { (&self.0.upgrade().unwrap().n).borrow().clone() } "));
}

#[test]
fn static_method_is_output_as_declared() {
    let mut r = ty("R", None);
    let mut m = method("make", false, vec![lit("1")]);
    m.inputs = vec![typed("k", "u8")];
    m.result_type = Some("u8".to_string());
    r.methods.push(m);
    let mut t = tree(vec![r]);
    let out = smodel(&mut t).ok().unwrap();
    assert!(out.contains("pub fn make(k: u8, ) -> u8  { 1  } "));
}

#[test]
fn inheritdoc_copies_the_documentation_of_the_overridden_method() {
    let mut r = ty("R", None);
    let mut base = method("name", false, vec![]);
    base.attributes.push(Attribute { kind: AttrKind::Doc, text: "#[doc = \" The name.\"]".to_string() });
    r.methods.push(base);
    let mut a = ty("A", Some("R"));
    let mut over = method("name", true, vec![]);
    over.attributes.push(Attribute { kind: AttrKind::InheritDoc, text: "#[inheritdoc]".to_string() });
    a.methods.push(over);
    let mut t = tree(vec![r, a]);
    let out = smodel(&mut t).ok().unwrap();
    assert!(out.contains("#[doc = \" The name.\"] pub fn name(&self, ) -> String  { self.__nd_name() } "));
    assert!(!out.contains("#[inheritdoc]"));
}

#[test]
fn to_and_is_are_generated_for_each_type() {
    let mut t = scenario();
    let out = smodel(&mut t).ok().unwrap();
    assert!(out.contains("pub fn is<T: TryFrom<R, Error = ::smodel::SModelError>>(&self) -> bool { T::try_from(self.clone()).is_ok() } "));
    assert!(out.contains("pub fn to<T: TryFrom<C, Error = ::smodel::SModelError>>(&self) -> Result<T, ::smodel::SModelError> { T::try_from(self.clone()) } "));
}

#[test]
fn symbol_table_chain_and_base_lookup() {
    let mut f = LmtFactory::new();
    let r = f.create_smtype_slot("R".to_string());
    let a = f.create_smtype_slot("A".to_string());
    let b = f.create_smtype_slot("B".to_string());
    a.set_inherits(&mut f, Some(r));
    f.add_subtype(r, a);
    b.set_inherits(&mut f, Some(a));
    f.add_subtype(a, b);
    assert_eq!(b.asc_smtype_list(&f), vec![r, a, b]);
    assert_eq!(r.asc_smtype_list(&f), vec![r]);
    let m = f.create_method_slot("m".to_string(), r, vec![]);
    f.add_method(r, "m".to_string(), m);
    assert_eq!(b.lookup_method_in_base_smtype("m", &f), Some(m));
    assert_eq!(a.lookup_method_in_base_smtype("m", &f), Some(m));
    assert_eq!(r.lookup_method_in_base_smtype("m", &f), None);
    assert_eq!(b.lookup_method_in_base_smtype("other", &f), None);
    assert_eq!(Symbol::create_layers_over_weak_root("base", &[r, a, b], &f), "B(A(R(base.clone())))");
    assert!(b.is_strict_descendant_of(r, &f));
    assert!(!r.is_strict_descendant_of(b, &f));
    assert!(!b.is_strict_descendant_of(b, &f));
    assert_eq!(b.name(&f), "B");
    assert_eq!(b.inherits(&f), Some(a));
    assert_eq!(r.subtypes(&f).iter(), vec![a]);
}

#[test]
fn downcast_error_kind_is_contravariant() {
    assert_eq!(SModelError::Contravariant, SModelError::Contravariant);
}

#[test]
fn end_to_end_scenario() {
    let mut t = scenario();
    let out = smodel(&mut t).ok().unwrap();
    // `B::new` builds one allocation whose discriminants record `B`.
    assert!(out.contains("fn new(arena: &mut Arena, ) -> Self  { let __cto1 = B(A(R(::std::rc::Rc::downgrade(&arena.allocate(__data__::__data_R { __variant: __data__::__variant_R::__data_A(::std::rc::Rc::new(__data__::__data_A { __variant: __data__::__variant_A::__data_B(::std::rc::Rc::new(__data__::__data_B { __variant: __data__::__variant_B::__Nothing })) })) })).clone()))); A::__ctor(&__cto1.0, ); __cto1.__ctor(); __cto1 } "));
    // Upcasting a `B` to `R` keeps the allocation.
    assert!(out.contains("impl From<B> for R { fn from(v: B) -> Self { R(v.0.0.0.clone()) } } "));
    // `name()` on an `R` handle tests for `B` inside `A` and forwards to
    // `B`'s override.
    assert!(out.contains("if self.is::<A>() { if self.is::<B>() { return B(A(self.clone())).name(); } "));
    assert!(out.contains("fn __nd_name(&self, ) -> String  { \"B\" . into ( )  } "));
    // Downcasting the `R` handle to `C` checks for `C` below `A`, and fails
    // with `Contravariant` otherwise; to `A` and to `B` the checks follow
    // the chain of `B`.
    assert!(out.contains("impl TryFrom<R> for C { type Error = ::smodel::SModelError; fn try_from(v: R) -> Result<Self, Self::Error> { if let __data__::__variant_R::__data_A(_o) = &v.0.upgrade().unwrap().__variant { if let __data__::__variant_A::__data_C(_o) = &_o.__variant { Ok(C(A(R(v.0.clone())))) } else { Err(::smodel::SModelError::Contravariant) } } else { Err(::smodel::SModelError::Contravariant) } } } "));
    assert!(out.contains("impl TryFrom<R> for A { type Error = ::smodel::SModelError; fn try_from(v: R) -> Result<Self, Self::Error> { if let __data__::__variant_R::__data_A(_o) = &v.0.upgrade().unwrap().__variant { Ok(A(R(v.0.clone()))) } else { Err(::smodel::SModelError::Contravariant) } } } "));
    // `B`'s `describe` puts its part before that of `R`, reached without
    // dispatch.
    assert!(out.contains("format ! ( \"B{}\" , R::__nd_describe(&self.0.0, ) )"));
}

#[test]
fn inheritdoc_needs_an_ancestor_method() {
    let mut r = ty("R", None);
    let mut m = method("m", false, vec![]);
    m.attributes.push(Attribute { kind: AttrKind::InheritDoc, text: "#[inheritdoc]".to_string() });
    r.methods.push(m);
    let mut t = tree(vec![r]);
    match smodel(&mut t) {
        Err(d) => {
            assert_eq!(d.len(), 1);
            assert!(matches!(&d[0], Diagnostic::NoMethodInBase(n) if n == "m"));
        },
        Ok(_) => panic!("expected an error"),
    }
}

#[test]
fn constructor_parameters_take_no_receiver() {
    let mut r = ty("R", None);
    r.constructor = Some(SmTypeConstructor {
        attributes: vec![],
        visibility: "pub".to_string(),
        generics: no_generics(),
        name: "R".to_string(),
        inputs: vec![self_ref(), typed("x", "i32")],
        super_arguments: vec![],
        statements: String::new(),
    });
    let mut t = tree(vec![r]);
    match smodel(&mut t) {
        Err(d) => {
            assert_eq!(d.len(), 1);
            assert!(matches!(d[0], Diagnostic::UnexpectedReceiver));
        },
        Ok(_) => panic!("expected an error"),
    }
}

fn ctor(name: &str, inputs: Vec<FnArg>, statements: &str) -> SmTypeConstructor {
    SmTypeConstructor {
        attributes: vec![],
        visibility: "pub".to_string(),
        generics: no_generics(),
        name: name.to_string(),
        inputs,
        super_arguments: vec![],
        statements: statements.to_string(),
    }
}

fn inheritdoc() -> Attribute {
    Attribute { kind: AttrKind::InheritDoc, text: "#[inheritdoc]".to_string() }
}

/// `"s".into()`
fn into_body(s: &str) -> Vec<Token> {
    vec![lit(&format!("\"{}\"", s)), punct("."), ident("into"), Token::Open(Delim::Paren), Token::Close(Delim::Paren)]
}

#[test]
fn test() {
    let mut thingy = ty("Thingy", None);
    thingy.attributes.push(Attribute { kind: AttrKind::Doc, text: "#[doc = \" My unified data type.\"]".to_string() });
    thingy.constructor = Some(ctor("Thingy", vec![], ""));
    let mut name = method("name", false, into_body(""));
    name.attributes.push(Attribute { kind: AttrKind::Doc, text: "#[doc = \" Empty, Foo, FooBar or FooQux\"]".to_string() });
    thingy.methods.push(name);
    thingy.methods.push(method("base_example", false, into_body("from base")));
    let mut x = method("x", false, vec![lit("0.0")]);
    x.result_type = Some("f64".to_string());
    thingy.methods.push(x);

    let mut foo = ty("Foo", Some("Thingy"));
    foo.constructor = Some(ctor("Foo", vec![], ""));
    let mut m = method("name", true, into_body("Foo"));
    m.attributes.push(inheritdoc());
    foo.methods.push(m);

    let mut foobar = ty("FooBar", Some("Foo"));
    foobar.constructor = Some(ctor("FooBar", vec![], ""));
    let mut m = method("name", true, into_body("FooBar"));
    m.attributes.push(inheritdoc());
    foobar.methods.push(m);
    let mut body = vec![ident("format"), punct("!"), Token::Open(Delim::Paren), lit("\"from bar; {}\""), punct(",")];
    body.extend(super_call("base_example"));
    body.push(Token::Close(Delim::Paren));
    foobar.methods.push(method("base_example", true, body));

    let mut foobarbar = ty("FooBarBar", Some("FooBar"));
    foobarbar.fields.push(SmTypeField {
        is_ref: false,
        name: "m_x".to_string(),
        type_annotation: "f64".to_string(),
        default_value: "0.0".to_string(),
    });
    foobarbar.fields.push(SmTypeField {
        is_ref: true,
        name: "m_y".to_string(),
        type_annotation: "String".to_string(),
        default_value: "\"\".into()".to_string(),
    });
    foobarbar.constructor = Some(ctor(
        "FooBarBar",
        vec![typed("x", "f64"), typed("y", "&str")],
        "self.set_m_x(x); self.set_m_y(y.into());",
    ));
    let mut m = method("name", true, into_body("FooBarBar"));
    m.attributes.push(inheritdoc());
    foobarbar.methods.push(m);
    let mut m = method("x", true, vec![ident("self"), punct("."), ident("m_x"), Token::Open(Delim::Paren), Token::Close(Delim::Paren)]);
    m.result_type = Some("f64".to_string());
    foobarbar.methods.push(m);
    let mut body = vec![ident("format"), punct("!"), Token::Open(Delim::Paren), lit("\"from {}; {}\""), punct(","),
        ident("self"), punct("."), ident("m_y"), Token::Open(Delim::Paren), Token::Close(Delim::Paren), punct(",")];
    body.extend(super_call("base_example"));
    body.push(Token::Close(Delim::Paren));
    foobarbar.methods.push(method("base_example", true, body));

    let mut fooqux = ty("FooQux", Some("Foo"));
    fooqux.constructor = Some(ctor("FooQux", vec![], ""));
    let mut m = method("name", true, into_body("FooQux"));
    m.attributes.push(inheritdoc());
    fooqux.methods.push(m);

    let mut t = SmTypeTree {
        smodel_path: "crate".to_string(),
        arena_type_name: "Arena".to_string(),
        data_types: vec![thingy, foo, foobar, foobarbar, fooqux],
    };
    let out = smodel(&mut t).ok().unwrap();

    // `name()` through a `Thingy` handle: `Foo`'s override, which tests for
    // `FooBar` and `FooQux`, and `FooBar`'s, which tests for `FooBarBar`.
    assert!(out.contains("#[doc = \" Empty, Foo, FooBar or FooQux\"] pub fn name(&self, ) -> String  { if self.is::<Foo>() { return Foo(self.clone()).name(); } self.__nd_name() } "));
    assert!(out.contains("#[doc = \" Empty, Foo, FooBar or FooQux\"] pub fn name(&self, ) -> String  { if self.is::<FooBar>() { return FooBar(self.clone()).name(); } else if self.is::<FooQux>() { return FooQux(self.clone()).name(); } self.__nd_name() } "));
    assert!(out.contains("pub fn name(&self, ) -> String  { if self.is::<FooBarBar>() { return FooBarBar(self.clone()).name(); } self.__nd_name() } "));
    assert!(out.contains("fn __nd_name(&self, ) -> String  { \"FooBarBar\" . into ( )  } "));
    assert!(out.contains("fn __nd_name(&self, ) -> String  { \"FooQux\" . into ( )  } "));
    // `base_example()`: "from base", "from bar; from base", and
    // "from bar bar; from bar; from base" through the super chain.
    assert!(out.contains("pub fn base_example(&self, ) -> String  { if self.is::<Foo>() { if self.is::<FooBar>() { return FooBar(Foo(self.clone())).base_example(); }  } self.__nd_base_example() } "));
    assert!(out.contains("fn __nd_base_example(&self, ) -> String  { \"from base\" . into ( )  } "));
    assert!(out.contains("fn __nd_base_example(&self, ) -> String  { format ! ( \"from bar; {}\" , Thingy::__nd_base_example(&self.0.0, ) )  } "));
    assert!(out.contains("fn __nd_base_example(&self, ) -> String  { format ! ( \"from {}; {}\" , self . m_y ( ) , FooBar::__nd_base_example(&self.0, ) )  } "));
    // `x()`: 0.0, or the stored `m_x` for a `FooBarBar`.
    assert!(out.contains("pub fn x(&self, ) -> f64  { if self.is::<Foo>() { if self.is::<FooBar>() { if self.is::<FooBarBar>() { return FooBarBar(FooBar(Foo(self.clone()))).x(); }  }  } self.__nd_x() } "));
    assert!(out.contains("fn __nd_x(&self, ) -> f64  { self . m_x ( )  } "));
    // The constructor of `FooBarBar` stores its arguments after the defaults.
    assert!(out.contains("fn __ctor(&self, x: f64, y: &str, )  { self.set_m_x(x); self.set_m_y(y.into()); } "));
    assert!(out.contains("FooBar::__ctor(&__cto1.0, ); __cto1.__ctor(x, y, ); __cto1 } "));
    assert!(out.contains("m_x: ::std::cell::Cell::new(0.0), m_y: ::std::cell::RefCell::new(\"\".into()), __variant: __data__::__variant_FooBarBar::__Nothing"));
    // `is::<T>()` on a `Thingy` rests on these conversions.
    for sub in ["Foo", "FooBar", "FooBarBar", "FooQux"] {
        assert!(out.contains(&format!("impl TryFrom<Thingy> for {} {{ type Error = crate::SModelError;", sub)));
    }
    assert!(out.contains("pub fn is<T: TryFrom<Thingy, Error = crate::SModelError>>(&self) -> bool { T::try_from(self.clone()).is_ok() } "));
}
