use crate::args::{
    arguments_text, argument_problems, convert_function_input_to_arguments, inputs_text,
    push_inputs, push_type_params, type_params_text,
};
use crate::handle::{attrs_text, push_attributes};
use crate::host::SModelHost;
use crate::symbol::{layers_text, LmtFactory, Symbol};
use crate::tree::{FnArg, SmTypeConstructor};
use vstd::prelude::*;

verus! {

/// The initialiser of one field in an allocation literal: its default value
/// in a fresh cell.
pub open spec fn field_init_text(f: &LmtFactory, e: (String, Symbol)) -> Seq<char> {
    let fs = f.field_slot(e.1);
    e.0@ + if fs.is_ref {
        ": ::std::cell::RefCell::new("@
    } else {
        ": ::std::cell::Cell::new("@
    } + fs.field_init@ + "), "@
}

/// The initialisers of the fields `entries`, in order.
pub open spec fn field_inits_text(f: &LmtFactory, entries: Seq<(String, Symbol)>) -> Seq<char>
    decreases entries.len(),
{
    if entries.len() == 0 {
        Seq::empty()
    } else {
        field_inits_text(f, entries.drop_last()) + field_init_text(f, entries.last())
    }
}

/// The allocation literal of an instance of the last type of `list`, from
/// level `i` down: each level's fields at their defaults, and a
/// discriminant that holds the next level, or no subtype at the last.
pub open spec fn init_data_text(f: &LmtFactory, list: Seq<Symbol>, i: int) -> Seq<char>
    decreases list.len() - i,
{
    let t = list[i];
    "__data__::__data_"@ + f.name_of(t) + " { "@ + field_inits_text(f, f.type_slot(t).fields.entries())
        + "__variant: "@ + if i + 1 < list.len() {
        "__data__::__variant_"@ + f.name_of(t) + "::__data_"@ + f.name_of(list[i + 1])
            + "(::std::rc::Rc::new("@ + init_data_text(f, list, i + 1) + "))"@
    } else {
        "__data__::__variant_"@ + f.name_of(t) + "::__Nothing"@
    } + " }"@
}

/// Texts each followed by `, `.
pub open spec fn comma_list_text(items: Seq<String>) -> Seq<char>
    decreases items.len(),
{
    if items.len() == 0 {
        Seq::empty()
    } else {
        comma_list_text(items.drop_last()) + items.last()@ + ", "@
    }
}

/// The instance initializer: the constructor's body without the base
/// call and without allocation.
pub open spec fn ctor_init_text(
    attrs: Seq<char>,
    tp: Seq<char>,
    inputs: Seq<char>,
    where_clause: Seq<char>,
    statements: Seq<char>,
) -> Seq<char> {
    attrs + "fn __ctor"@ + tp + "(&self, "@ + inputs + ") "@ + where_clause + " { "@ + statements
        + " } "@
}

/// The body of `new`: allocate the instance with every field at its
/// default, then run the base's initializer with the `super(...)`
/// arguments, then the type's own initializer with the parameters, and
/// return the handle.
pub open spec fn new_body_text(
    layers: Seq<char>,
    base_name: Option<Seq<char>>,
    super_args: Seq<char>,
    args: Seq<char>,
) -> Seq<char> {
    "let __cto1 = "@ + layers + "; "@ + match base_name {
        Some(b) => b + "::__ctor(&__cto1.0, "@ + super_args + "); "@,
        None => Seq::empty(),
    } + "__cto1.__ctor("@ + args + "); __cto1"@
}

pub open spec fn new_text(
    attrs: Seq<char>,
    vis: Seq<char>,
    tp: Seq<char>,
    arena: Seq<char>,
    inputs: Seq<char>,
    where_clause: Seq<char>,
    body: Seq<char>,
) -> Seq<char> {
    attrs + vis + " fn new"@ + tp + "(arena: &mut "@ + arena + ", "@ + inputs + ") -> Self "@
        + where_clause + " { "@ + body + " } "@
}

/// The parts of a constructor as source text; all empty without one.
pub struct CtorParts {
    pub attrs: String,
    pub vis: String,
    pub tp: String,
    pub inputs: String,
    pub where_clause: String,
    pub statements: String,
    pub super_args: String,
}

pub open spec fn ctor_parts_match(p: CtorParts, node: Option<&SmTypeConstructor>) -> bool {
    match node {
        Some(c) => {
            &&& p.attrs@ == attrs_text(c.attributes@)
            &&& p.vis@ == c.visibility@
            &&& p.tp@ == type_params_text(c.generics)
            &&& p.inputs@ == inputs_text(c.inputs@)
            &&& p.where_clause@ == c.generics.where_clause@
            &&& p.statements@ == c.statements@
            &&& p.super_args@ == comma_list_text(c.super_arguments@)
        },
        None => {
            &&& p.attrs@ == Seq::<char>::empty()
            &&& p.vis@ == Seq::<char>::empty()
            &&& p.tp@ == Seq::<char>::empty()
            &&& p.inputs@ == Seq::<char>::empty()
            &&& p.where_clause@ == Seq::<char>::empty()
            &&& p.statements@ == Seq::<char>::empty()
            &&& p.super_args@ == Seq::<char>::empty()
        },
    }
}

pub open spec fn node_args(node: Option<&SmTypeConstructor>) -> Seq<char> {
    match node {
        Some(c) => arguments_text(c.inputs@),
        None => Seq::empty(),
    }
}

pub open spec fn node_problems(node: Option<&SmTypeConstructor>) -> Seq<crate::host::Diagnostic> {
    match node {
        Some(c) => argument_problems(c.inputs@),
        None => Seq::empty(),
    }
}

/// What the constructor pass adds to the methods of a type whose chain is
/// `list`, given the parts of its constructor and its forwarded arguments.
pub open spec fn constructor_output_text(
    f: &LmtFactory,
    p: CtorParts,
    args: Seq<char>,
    list: Seq<Symbol>,
    arena: Seq<char>,
) -> Seq<char> {
    let t = list.last();
    let layers = layers_text(
        f.names_of(list),
        "::std::rc::Rc::downgrade(&arena.allocate("@ + init_data_text(f, list, 0) + "))"@,
    );
    let base_name = match f.parent(t) {
        Some(b) => Some(f.name_of(b)),
        None => None,
    };
    ctor_init_text(p.attrs@, p.tp@, p.inputs@, p.where_clause@, p.statements@) + new_text(
        p.attrs@,
        p.vis@,
        p.tp@,
        arena,
        p.inputs@,
        p.where_clause@,
        new_body_text(layers, base_name, p.super_args@, args),
    )
}

/// The constructor pass.
pub struct ProcessingStep3_7();

impl ProcessingStep3_7 {
    /// Adds to the methods of `smtype` its instance initializer and its
    /// static `new`, which allocates, initialises the base, then itself.
    pub fn exec(
        &self,
        host: &mut SModelHost,
        node: Option<&SmTypeConstructor>,
        smtype: Symbol,
        asc_smtype_list: &[Symbol],
        arena_type_name: &str,
    )
        requires
            old(host).wf(),
            old(host).factory.is_type(smtype),
            asc_smtype_list@ == old(host).factory.chain(smtype),
        ensures
            final(host).wf(),
            final(host).factory.only_type_changed(&old(host).factory, smtype),
            final(host).factory.type_slot(smtype).fields == old(host).factory.type_slot(smtype).fields,
            final(host).factory.type_slot(smtype).methods == old(host).factory.type_slot(smtype).methods,
            final(host).factory.type_slot(smtype).subtypes == old(host).factory.type_slot(smtype).subtypes,
            final(host).factory.type_slot(smtype).inherits == old(host).factory.type_slot(smtype).inherits,
            final(host).smtype_slots == old(host).smtype_slots,
            final(host).type_symbols == old(host).type_symbols,
            final(host).method_symbols == old(host).method_symbols,
            final(host).output == old(host).output,
            final(host).data_output == old(host).data_output,
            final(host).diagnostics@ == old(host).diagnostics@ + node_problems(node),
            exists|p: CtorParts|
                ctor_parts_match(p, node) && final(host).factory.type_slot(smtype).method_output@
                    == old(host).factory.type_slot(smtype).method_output@ + constructor_output_text(
                    &old(host).factory,
                    p,
                    node_args(node),
                    asc_smtype_list@,
                    arena_type_name@,
                ),
    {
        let no_inputs: Vec<FnArg> = Vec::new();
        let inputs: &[FnArg] = match node {
            Some(c) => c.inputs.as_slice(),
            None => no_inputs.as_slice(),
        };
        let parts = self.parts(node);
        let input_args = convert_function_input_to_arguments(host, inputs, 0);
        assert(inputs@.subrange(0, inputs@.len() as int) =~= inputs@);
        assert(input_args@ == node_args(node));
        let code = self.code(&parts, &input_args, smtype, asc_smtype_list, arena_type_name, &host.factory);
        let ghost h1 = *host;
        host.factory.append_method_output(smtype, code.as_str());
        proof {
            crate::layout::lemma_extends_keeps_host(&h1, host);
            assert(ctor_parts_match(parts, node));
        }
    }

    fn parts(&self, node: Option<&SmTypeConstructor>) -> (r: CtorParts)
        ensures
            ctor_parts_match(r, node),
    {
        let mut p = CtorParts {
            attrs: String::new(),
            vis: String::new(),
            tp: String::new(),
            inputs: String::new(),
            where_clause: String::new(),
            statements: String::new(),
            super_args: String::new(),
        };
        match node {
            Some(c) => {
                push_attributes(&mut p.attrs, &c.attributes);
                push_type_params(&mut p.tp, &c.generics);
                push_inputs(&mut p.inputs, c.inputs.as_slice(), 0);
                assert(c.inputs@.subrange(0, c.inputs@.len() as int) =~= c.inputs@);
                p.where_clause.append(c.generics.where_clause.as_str());
                p.vis.append(c.visibility.as_str());
                p.statements.append(c.statements.as_str());
                push_comma_list(&mut p.super_args, &c.super_arguments);
            },
            None => {},
        }
        p
    }

    /// The initializer and `new` of `smtype`.
    #[verifier::spinoff_prover]
    #[verifier::rlimit(100)]
    fn code(
        &self,
        p: &CtorParts,
        input_args: &String,
        smtype: Symbol,
        asc_smtype_list: &[Symbol],
        arena_type_name: &str,
        f: &LmtFactory,
    ) -> (r: String)
        requires
            f.wf(),
            f.is_type(smtype),
            asc_smtype_list@ == f.chain(smtype),
        ensures
            r@ == constructor_output_text(f, *p, input_args@, asc_smtype_list@, arena_type_name@),
    {
        proof {
            crate::symbol::lemma_asc_chain_shape(f, smtype);
        }
        // The instance initializer, holding the constructor's statements.
        let mut code = String::new();
        code.append(p.attrs.as_str());
        code.append("fn __ctor");
        code.append(p.tp.as_str());
        code.append("(&self, ");
        code.append(p.inputs.as_str());
        code.append(") ");
        code.append(p.where_clause.as_str());
        code.append(" { ");
        code.append(p.statements.as_str());
        code.append(" } ");
        let ghost init_part = code@;

        // `new`: allocate with every field at its default value.
        let init = self.init_data(asc_smtype_list, 0, f);
        let mut alloc = String::new();
        alloc.append("::std::rc::Rc::downgrade(&arena.allocate(");
        alloc.append(init.as_str());
        alloc.append("))");
        let layers = Symbol::create_layers_over_weak_root(alloc.as_str(), asc_smtype_list, f);
        let mut body = String::new();
        body.append("let __cto1 = ");
        body.append(layers.as_str());
        body.append("; ");
        // Initialise the base with the `super(...)` arguments.
        assert(f.type_wf(smtype.0 as int));
        match smtype.inherits(f) {
            Some(inherited) => {
                let inherited_name = inherited.name(f);
                body.append(inherited_name.as_str());
                body.append("::__ctor(&__cto1.0, ");
                body.append(p.super_args.as_str());
                body.append("); ");
            },
            None => {},
        }
        // Then the type itself, with the parameters.
        body.append("__cto1.__ctor(");
        body.append(input_args.as_str());
        body.append("); __cto1");
        let ghost body_text = body@;
        code.append(p.attrs.as_str());
        code.append(p.vis.as_str());
        code.append(" fn new");
        code.append(p.tp.as_str());
        code.append("(arena: &mut ");
        code.append(arena_type_name);
        code.append(", ");
        code.append(p.inputs.as_str());
        code.append(") -> Self ");
        code.append(p.where_clause.as_str());
        code.append(" { ");
        code.append(body.as_str());
        code.append(" } ");
        proof {
            assert(init_part =~= ctor_init_text(p.attrs@, p.tp@, p.inputs@, p.where_clause@, p.statements@));
            let base_name = match f.parent(smtype) {
                Some(b) => Some(f.name_of(b)),
                None => None,
            };
            assert(body_text =~= new_body_text(layers@, base_name, p.super_args@, input_args@));
            assert(code@ =~= init_part + new_text(
                p.attrs@,
                p.vis@,
                p.tp@,
                arena_type_name@,
                p.inputs@,
                p.where_clause@,
                body_text,
            ));
        }
        code
    }

    /// The allocation literal of an instance of the last type of the
    /// chain, from level `smtype_index` down.
    fn init_data(&self, asc_smtype_list: &[Symbol], smtype_index: usize, f: &LmtFactory) -> (r: String)
        requires
            f.wf(),
            smtype_index < asc_smtype_list@.len(),
            forall|i: int| 0 <= i < asc_smtype_list@.len() ==> f.is_type(#[trigger] asc_smtype_list@[i]),
        ensures
            r@ == init_data_text(f, asc_smtype_list@, smtype_index as int),
        decreases asc_smtype_list@.len() - smtype_index,
    {
        let smtype = asc_smtype_list[smtype_index];
        let smtype_name = smtype.name(f);
        assert(f.type_wf(smtype.0 as int));
        let entries = smtype.fields(f).borrow();
        let mut fields = String::new();
        let mut k: usize = 0;
        while k < entries.len()
            invariant
                f.wf(),
                f.is_type(smtype),
                entries@ == smtype.fields_view(f),
                k <= entries@.len(),
                fields@ == field_inits_text(f, entries@.subrange(0, k as int)),
            decreases entries@.len() - k,
        {
            let (name, field) = &entries[k];
            proof {
                let t = f.type_slot(smtype);
                assert(t.fields.keys()[k as int] == name@);
                assert(t.fields.has_key(name@));
                crate::symbol::lemma_field_entry(f, smtype, k as int);
            }
            fields.append(name.as_str());
            if field.is_ref(f) {
                fields.append(": ::std::cell::RefCell::new(");
            } else {
                fields.append(": ::std::cell::Cell::new(");
            }
            let init = field.field_init(f);
            fields.append(init.as_str());
            fields.append("), ");
            proof {
                assert(entries@.subrange(0, k + 1).drop_last() =~= entries@.subrange(0, k as int));
            }
            k += 1;
        }
        assert(entries@.subrange(0, entries@.len() as int) =~= entries@);
        let mut out = String::new();
        out.append("__data__::__data_");
        out.append(smtype_name.as_str());
        out.append(" { ");
        out.append(fields.as_str());
        out.append("__variant: ");
        if smtype_index + 1 < asc_smtype_list.len() {
            let next_m = asc_smtype_list[smtype_index + 1].name(f);
            let i = self.init_data(asc_smtype_list, smtype_index + 1, f);
            out.append("__data__::__variant_");
            out.append(smtype_name.as_str());
            out.append("::__data_");
            out.append(next_m.as_str());
            out.append("(::std::rc::Rc::new(");
            out.append(i.as_str());
            out.append("))");
        } else {
            out.append("__data__::__variant_");
            out.append(smtype_name.as_str());
            out.append("::__Nothing");
        }
        out.append(" }");
        out
    }
}

pub fn push_comma_list(out: &mut String, items: &Vec<String>)
    ensures
        final(out)@ == old(out)@ + comma_list_text(items@),
{
    let mut i: usize = 0;
    while i < items.len()
        invariant
            i <= items@.len(),
            out@ == old(out)@ + comma_list_text(items@.subrange(0, i as int)),
        decreases items@.len() - i,
    {
        out.append(items[i].as_str());
        out.append(", ");
        proof {
            assert(items@.subrange(0, i + 1).drop_last() =~= items@.subrange(0, i as int));
        }
        i += 1;
    }
    assert(items@.subrange(0, items@.len() as int) =~= items@);
}

} // verus!
