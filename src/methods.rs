use crate::args::{
    argument_problems, arguments_text, convert_function_input_to_arguments, inputs_text, push_inputs,
    push_type_params, type_params_text,
};
use crate::handle::{attrs_text, dot_zeros};
use crate::host::{Diagnostic, SModelHost};
use crate::rewrite::{
    hops_up_of, lemma_base_method_owner, missing_supers, push_token, rewrite_text, super_call_name,
    super_call_text,
};
use crate::symbol::{layers_text, LmtFactory, Symbol};
use crate::tree::{AttrKind, Attribute, FnArg, SmTypeMethod, Token};
use vstd::prelude::*;

verus! {

/// The path of an override of a method declared in `base` by `target`:
/// the types below `base` down to `target`.
pub open spec fn override_path(f: &LmtFactory, base: Symbol, target: Symbol) -> Seq<Symbol> {
    f.chain(target).subrange(f.depth(base) + 1 as int, f.chain(target).len() as int)
}

/// The code of an override trie leaf: re-wrap the receiver as a handle of
/// the overriding type and forward the call to it.
pub open spec fn override_code_text(layers: Seq<char>, name: Seq<char>, args: Seq<char>) -> Seq<char> {
    "return "@ + layers + "."@ + name + "("@ + args + ");"@
}

pub open spec fn begins_with_no_receiver_spec(input: Seq<FnArg>) -> bool {
    input.len() == 0 || !(input[0] is Receiver)
}

pub open spec fn begins_with_instance_receiver_spec(input: Seq<FnArg>) -> bool {
    input.len() > 0 && match input[0] {
        FnArg::Receiver(r) => !r.has_attrs && !r.mutability && r.reference && !r.has_lifetime,
        FnArg::Typed(_) => false,
    }
}

/// `-> T`, or nothing without a result type.
pub open spec fn result_text(t: Option<String>) -> Seq<char> {
    match t {
        Some(t) => "-> "@ + t@,
        None => Seq::empty(),
    }
}

/// The attributes that are neither documentation nor `inheritdoc`.
pub open spec fn other_attrs_text(attrs: Seq<Attribute>) -> Seq<char>
    decreases attrs.len(),
{
    if attrs.len() == 0 {
        Seq::empty()
    } else {
        other_attrs_text(attrs.drop_last()) + if attrs.last().kind == AttrKind::Other {
            attrs.last().text@ + " "@
        } else {
            Seq::empty()
        }
    }
}

pub open spec fn has_inheritdoc(attrs: Seq<Attribute>) -> bool {
    exists|i: int| 0 <= i < attrs.len() && (#[trigger] attrs[i]).kind == AttrKind::InheritDoc
}

/// A method without receiver, as declared.
pub open spec fn static_method_text(
    attrs: Seq<char>,
    vis: Seq<char>,
    name: Seq<char>,
    tp: Seq<char>,
    inputs: Seq<char>,
    result: Seq<char>,
    where_clause: Seq<char>,
    body: Seq<char>,
) -> Seq<char> {
    attrs + vis + " fn "@ + name + tp + "("@ + inputs + ") "@ + result + " "@ + where_clause + " { "@
        + body + " } "@
}

/// The non-dispatching implementation of an instance method.
pub open spec fn nondispatch_method_text(
    attrs: Seq<char>,
    name: Seq<char>,
    tp: Seq<char>,
    inputs: Seq<char>,
    result: Seq<char>,
    where_clause: Seq<char>,
    body: Seq<char>,
) -> Seq<char> {
    attrs + "fn __nd_"@ + name + tp + "(&self, "@ + inputs + ") "@ + result + " "@ + where_clause
        + " { "@ + body + " } "@
}

/// The texts of the documentation attributes.
pub open spec fn doc_texts_spec(attrs: Seq<Attribute>) -> Seq<Seq<char>>
    decreases attrs.len(),
{
    if attrs.len() == 0 {
        Seq::empty()
    } else {
        doc_texts_spec(attrs.drop_last()) + if attrs.last().kind == AttrKind::Doc {
            seq![attrs.last().text@]
        } else {
            Seq::empty()
        }
    }
}

pub fn doc_texts(attrs: &Vec<Attribute>) -> (r: Vec<String>)
    ensures
        r@.map_values(|s: String| s@) == doc_texts_spec(attrs@),
{
    let mut out: Vec<String> = Vec::new();
    let mut i: usize = 0;
    while i < attrs.len()
        invariant
            i <= attrs@.len(),
            out@.map_values(|s: String| s@) == doc_texts_spec(attrs@.subrange(0, i as int)),
        decreases attrs@.len() - i,
    {
        let ghost prev = out@;
        if attrs[i].kind == AttrKind::Doc {
            out.push(attrs[i].text.clone());
        }
        proof {
            assert(attrs@.subrange(0, i + 1).drop_last() =~= attrs@.subrange(0, i as int));
            if attrs@[i as int].kind == AttrKind::Doc {
                assert(out@.map_values(|s: String| s@) =~= prev.map_values(|s: String| s@) + seq![attrs@[i as int].text@]);
            } else {
                assert(out@.map_values(|s: String| s@) =~= prev.map_values(|s: String| s@) + Seq::<Seq<char>>::empty());
            }
        }
        i += 1;
    }
    assert(attrs@.subrange(0, attrs@.len() as int) =~= attrs@);
    out
}

pub fn has_inheritdoc_attr(attrs: &Vec<Attribute>) -> (r: bool)
    ensures
        r == has_inheritdoc(attrs@),
{
    let mut i: usize = 0;
    while i < attrs.len()
        invariant
            i <= attrs@.len(),
            forall|j: int| 0 <= j < i ==> (#[trigger] attrs@[j]).kind != AttrKind::InheritDoc,
        decreases attrs@.len() - i,
    {
        if attrs[i].kind == AttrKind::InheritDoc {
            return true;
        }
        i += 1;
    }
    false
}

proof fn lemma_other_attrs_remove(s: Seq<Attribute>, i: int)
    requires
        0 <= i < s.len(),
        s[i].kind != AttrKind::Other,
    ensures
        other_attrs_text(s.remove(i)) == other_attrs_text(s),
    decreases s.len(),
{
    if i == s.len() - 1 {
        assert(s.remove(i) =~= s.drop_last());
    } else {
        lemma_other_attrs_remove(s.drop_last(), i);
        assert(s.remove(i).drop_last() =~= s.drop_last().remove(i));
        assert(s.remove(i).last() == s.last());
    }
}

/// The attributes without the `inheritdoc` markers.
pub open spec fn without_inheritdoc(attrs: Seq<Attribute>) -> Seq<Attribute>
    decreases attrs.len(),
{
    if attrs.len() == 0 {
        Seq::empty()
    } else {
        without_inheritdoc(attrs.drop_last()) + if attrs.last().kind == AttrKind::InheritDoc {
            Seq::empty()
        } else {
            seq![attrs.last()]
        }
    }
}

/// Kind and text of each attribute.
pub open spec fn attrs_view(attrs: Seq<Attribute>) -> Seq<(AttrKind, Seq<char>)> {
    attrs.map_values(|a: Attribute| (a.kind, a.text@))
}

/// Documentation texts as documentation attributes.
pub open spec fn doc_attrs_view(docs: Seq<String>) -> Seq<(AttrKind, Seq<char>)> {
    docs.map_values(|s: String| (AttrKind::Doc, s@))
}

proof fn lemma_other_attrs_without_inheritdoc(s: Seq<Attribute>)
    ensures
        other_attrs_text(without_inheritdoc(s)) == other_attrs_text(s),
    decreases s.len(),
{
    if s.len() > 0 {
        lemma_other_attrs_without_inheritdoc(s.drop_last());
        let w = without_inheritdoc(s.drop_last());
        if s.last().kind != AttrKind::InheritDoc {
            assert((w + seq![s.last()]).drop_last() =~= w);
        } else {
            assert(w + Seq::<Attribute>::empty() =~= w);
        }
    }
}

/// Takes out the `inheritdoc` markers, leaving the other attributes.
pub fn remove_inheritdoc(attrs: &mut Vec<Attribute>)
    ensures
        final(attrs)@ == without_inheritdoc(old(attrs)@),
        other_attrs_text(final(attrs)@) == other_attrs_text(old(attrs)@),
{
    let ghost all = attrs@;
    let n = attrs.len();
    let mut k: usize = 0;
    let mut j: usize = 0;
    while k < n
        invariant
            n == all.len(),
            j <= k <= n,
            attrs@.len() == j + (n - k),
            attrs@.subrange(0, j as int) == without_inheritdoc(all.subrange(0, k as int)),
            attrs@.subrange(j as int, attrs@.len() as int) == all.subrange(k as int, n as int),
        decreases n - k,
    {
        let ghost before = attrs@;
        proof {
            assert(all.subrange(0, k + 1).drop_last() =~= all.subrange(0, k as int));
            assert(before[j as int] == before.subrange(j as int, before.len() as int)[0]);
        }
        if attrs[j].kind == AttrKind::InheritDoc {
            attrs.remove(j);
            proof {
                assert(attrs@.subrange(0, j as int) =~= before.subrange(0, j as int));
                assert forall|x: int| 0 <= x < n - k - 1 implies #[trigger] attrs@.subrange(j as int, attrs@.len() as int)[x] == all.subrange(k + 1, n as int)[x] by {
                    assert(before.subrange(j as int, before.len() as int)[x + 1] == all.subrange(k as int, n as int)[x + 1]);
                }
                assert(attrs@.subrange(j as int, attrs@.len() as int) =~= all.subrange(k + 1, n as int));
                assert(without_inheritdoc(all.subrange(0, k + 1)) =~= without_inheritdoc(all.subrange(0, k as int)));
            }
        } else {
            proof {
                assert(attrs@.subrange(0, j + 1) =~= before.subrange(0, j as int).push(before[j as int]));
                assert forall|x: int| 0 <= x < n - k - 1 implies #[trigger] attrs@.subrange(j + 1, attrs@.len() as int)[x] == all.subrange(k + 1, n as int)[x] by {
                    assert(before.subrange(j as int, before.len() as int)[x + 1] == all.subrange(k as int, n as int)[x + 1]);
                }
                assert(attrs@.subrange(j + 1, attrs@.len() as int) =~= all.subrange(k + 1, n as int));
                assert(without_inheritdoc(all.subrange(0, k + 1)) =~= without_inheritdoc(all.subrange(0, k as int)).push(all[k as int]));
            }
            j += 1;
        }
        k += 1;
    }
    proof {
        assert(all.subrange(0, n as int) =~= all);
        assert(attrs@.subrange(0, j as int) =~= attrs@);
        lemma_other_attrs_without_inheritdoc(all);
    }
}

/// Appends each of `docs` as a documentation attribute.
pub fn push_docs(attrs: &mut Vec<Attribute>, docs: &Vec<String>)
    ensures
        attrs_view(final(attrs)@) == attrs_view(old(attrs)@) + doc_attrs_view(docs@),
        other_attrs_text(final(attrs)@) == other_attrs_text(old(attrs)@),
{
    let mut i: usize = 0;
    while i < docs.len()
        invariant
            i <= docs@.len(),
            other_attrs_text(attrs@) == other_attrs_text(old(attrs)@),
            attrs_view(attrs@) == attrs_view(old(attrs)@) + doc_attrs_view(docs@.subrange(0, i as int)),
        decreases docs@.len() - i,
    {
        let ghost before = attrs@;
        let text = docs[i].clone();
        assert(text@ == docs@[i as int]@);
        attrs.push(Attribute { kind: AttrKind::Doc, text });
        assert(attrs@.drop_last() =~= before);
        assert(attrs_view(attrs@) =~= attrs_view(before).push((AttrKind::Doc, docs@[i as int]@)));
        assert(doc_attrs_view(docs@.subrange(0, i + 1)) =~= doc_attrs_view(docs@.subrange(0, i as int)).push((AttrKind::Doc, docs@[i as int]@)));
        assert(attrs_view(attrs@) =~= attrs_view(old(attrs)@) + doc_attrs_view(docs@.subrange(0, i + 1)));
        i += 1;
    }
    assert(docs@.subrange(0, docs@.len() as int) =~= docs@);
}

pub fn push_result(out: &mut String, t: &Option<String>)
    ensures
        final(out)@ == old(out)@ + result_text(*t),
{
    match t {
        Some(t) => {
            out.append("-> ");
            out.append(t.as_str());
        },
        None => {
            assert(out@ =~= old(out)@ + Seq::<char>::empty());
        },
    }
}

pub fn push_other_attributes(out: &mut String, attrs: &Vec<Attribute>)
    ensures
        final(out)@ == old(out)@ + other_attrs_text(attrs@),
{
    let mut i: usize = 0;
    while i < attrs.len()
        invariant
            i <= attrs@.len(),
            out@ == old(out)@ + other_attrs_text(attrs@.subrange(0, i as int)),
        decreases attrs@.len() - i,
    {
        let ghost before = out@;
        if attrs[i].kind == AttrKind::Other {
            out.append(attrs[i].text.as_str());
            out.append(" ");
        }
        proof {
            assert(attrs@.subrange(0, i + 1).drop_last() =~= attrs@.subrange(0, i as int));
            if attrs@[i as int].kind != AttrKind::Other {
                assert(out@ =~= before + Seq::<char>::empty());
            }
        }
        i += 1;
    }
    assert(attrs@.subrange(0, attrs@.len() as int) =~= attrs@);
}

/// The number of diagnostics that an instance method with an exact `&self`
/// receiver and a free name gives in type `t`: one per `super` call
/// without target, one for `inheritdoc` and one for `override` without an
/// ancestor method of its name, and one per parameter that cannot be
/// forwarded.
pub open spec fn method_problem_count(f: &LmtFactory, t: Symbol, m: &SmTypeMethod) -> nat {
    missing_supers(f, t, m.statements@, 0) + (if has_inheritdoc(m.attributes@) && f.base_method(t, m.name@) is None {
        1nat
    } else {
        0nat
    }) + argument_problems(m.inputs@.drop_first()).len() + (if m.is_override && f.base_method(t, m.name@) is None {
        1nat
    } else {
        0nat
    })
}

/// The method pass.
pub struct ProcessingStep3_8();

impl ProcessingStep3_8 {
    pub fn begins_with_no_receiver(input: &[FnArg]) -> (r: bool)
        ensures
            r == begins_with_no_receiver_spec(input@),
    {
        if input.len() > 0 {
            !matches!(&input[0], FnArg::Receiver(_))
        } else {
            true
        }
    }

    /// Whether the first parameter is exactly `&self`.
    pub fn begins_with_instance_receiver(input: &[FnArg]) -> (r: bool)
        ensures
            r == begins_with_instance_receiver_spec(input@),
    {
        if input.len() == 0 {
            return false;
        }
        match &input[0] {
            FnArg::Receiver(rec) => {
                if rec.has_attrs || rec.mutability {
                    return false;
                }
                if !rec.reference {
                    return false;
                }
                !rec.has_lifetime
            },
            FnArg::Typed(_) => false,
        }
    }

    /// Rewrites each `super.NAME(` of a method body of `smtype` into a
    /// direct call to the nearest ancestor's non-dispatching implementation,
    /// with a diagnostic for each that has no target.
    pub fn process_super_expression(&self, host: &mut SModelHost, input: &Vec<Token>, smtype: Symbol) -> (r: String)
        requires
            old(host).wf(),
            old(host).factory.is_type(smtype),
        ensures
            r@ == rewrite_text(&old(host).factory, smtype, input@, 0),
            final(host).diagnostics@.len() == old(host).diagnostics@.len() + missing_supers(
                &old(host).factory,
                smtype,
                input@,
                0,
            ),
            forall|j: int|
                old(host).diagnostics@.len() <= j < final(host).diagnostics@.len()
                    ==> #[trigger] final(host).diagnostics@[j] is NoMethodInBase,
            forall|j: int|
                0 <= j < old(host).diagnostics@.len() ==> #[trigger] final(host).diagnostics@[j]
                    == old(host).diagnostics@[j],
            final(host).factory == old(host).factory,
            final(host).smtype_slots == old(host).smtype_slots,
            final(host).type_symbols == old(host).type_symbols,
            final(host).method_symbols == old(host).method_symbols,
            final(host).output == old(host).output,
            final(host).data_output == old(host).data_output,
    {
        let ghost f = host.factory;
        let ghost whole = rewrite_text(&f, smtype, input@, 0);
        let ghost missing = missing_supers(&f, smtype, input@, 0);
        let mut output = String::new();
        let mut i: usize = 0;
        while i < input.len()
            invariant
                host.factory == f,
                f.wf(),
                f.is_type(smtype),
                i <= input@.len(),
                output@ + rewrite_text(&f, smtype, input@, i as int) == whole,
                host.diagnostics@.len() + missing_supers(&f, smtype, input@, i as int) == old(host).diagnostics@.len() + missing,
                old(host).diagnostics@.len() <= host.diagnostics@.len(),
                forall|j: int|
                    old(host).diagnostics@.len() <= j < host.diagnostics@.len()
                        ==> #[trigger] host.diagnostics@[j] is NoMethodInBase,
                forall|j: int|
                    0 <= j < old(host).diagnostics@.len() ==> #[trigger] host.diagnostics@[j]
                        == old(host).diagnostics@[j],
                host.smtype_slots == old(host).smtype_slots,
                host.type_symbols == old(host).type_symbols,
                host.method_symbols == old(host).method_symbols,
                host.output == old(host).output,
                host.data_output == old(host).data_output,
            decreases input@.len() - i,
        {
            let ghost before = output@;
            match super_call_name(input, i) {
                Some(name) => {
                    match smtype.lookup_method_in_base_smtype(name.as_str(), &host.factory) {
                        Some(base_method) => {
                            proof {
                                lemma_base_method_owner(&f, smtype, name@);
                            }
                            let owner = base_method.defined_in(&host.factory);
                            let hops = hops_up_of(smtype, owner, &host.factory);
                            let owner_name = owner.name(&host.factory);
                            output.append(owner_name.as_str());
                            output.append("::__nd_");
                            output.append(name.as_str());
                            output.append("(&self");
                            let ghost z0 = output@;
                            let mut z: usize = 0;
                            while z < hops
                                invariant
                                    z <= hops,
                                    output@ == z0 + dot_zeros(z as nat),
                                decreases hops - z,
                            {
                                output.append(".0");
                                z += 1;
                            }
                            output.append(", ");
                            proof {
                                assert(output@ =~= before + super_call_text(owner_name@, name@, hops as nat));
                            }
                            i += 4;
                        },
                        None => {
                            host.diagnostics.push(Diagnostic::NoMethodInBase(name));
                            push_token(&mut output, &input[i]);
                            i += 1;
                        },
                    }
                },
                None => {
                    push_token(&mut output, &input[i]);
                    i += 1;
                },
            }
        }
        assert(output@ =~= whole);
        output
    }

    /// Registers the override of method `method_name` by `target_smtype`
    /// in the trie rooted at node `root` of the method declared in
    /// `base_smtype`: one node per type between the two, created where
    /// missing, and under the last a leaf whose code forwards the call to
    /// the overriding type.
    #[verifier::spinoff_prover]
    #[verifier::rlimit(100)]
    pub fn perform_override(
        &self,
        host: &mut SModelHost,
        method_name: &str,
        root: usize,
        base_smtype: Symbol,
        target_smtype: Symbol,
        input_args: &str,
    )
        requires
            old(host).wf(),
            root < old(host).factory.nodes().len(),
            old(host).factory.is_type(base_smtype),
            old(host).factory.is_type(target_smtype),
            old(host).factory.is_strict_ancestor(base_smtype, target_smtype),
            old(host).factory.node_levels()[root as int] == old(host).factory.depth(base_smtype) + 1,
        ensures
            final(host).wf(),
            final(host).factory.slots() == old(host).factory.slots(),
            final(host).smtype_slots == old(host).smtype_slots,
            final(host).type_symbols == old(host).type_symbols,
            final(host).method_symbols == old(host).method_symbols,
            final(host).output == old(host).output,
            final(host).data_output == old(host).data_output,
            final(host).diagnostics == old(host).diagnostics,
            old(host).factory.nodes().len() <= final(host).factory.nodes().len(),
            forall|n: int|
                0 <= n < old(host).factory.nodes().len() ==> (#[trigger] final(host).factory.nodes()[n]).code()
                    == old(host).factory.nodes()[n].code(),
            forall|n: int, k: usize|
                0 <= n < old(host).factory.nodes().len() && #[trigger] old(host).factory.nodes()[n].children().has_key(k)
                    ==> final(host).factory.nodes()[n].children().has_key(k) && (k != target_smtype@
                    ==> final(host).factory.nodes()[n].children().value_of(k) == old(host).factory.nodes()[n].children().value_of(k)),
            ({
                let f = old(host).factory;
                let path = override_path(&f, base_smtype, target_smtype);
                &&& final(host).factory.trie_walk(root as int, path) is Some
                &&& final(host).factory.nodes()[final(host).factory.trie_walk(root as int, path)->0].code()
                    == Some(override_code_text(
                    layers_text(f.names_of(path), "self"@),
                    method_name@,
                    input_args@,
                ))
            }),
    {
        let ghost f0 = host.factory;
        let smtype_list = target_smtype.asc_smtype_list(&host.factory);
        let mut below = target_smtype.asc_smtype_list(&host.factory);
        let base_depth = base_smtype.asc_smtype_list(&host.factory).len() - 1;
        proof {
            crate::symbol::lemma_asc_chain_shape(&f0, target_smtype);
            crate::symbol::lemma_asc_chain_shape(&f0, base_smtype);
            let k = choose|k: int| 0 <= k < f0.chain(target_smtype).drop_last().len() && f0.chain(target_smtype).drop_last()[k] == base_smtype;
            assert(f0.chain(target_smtype)[k] == base_smtype);
            crate::runtime::lemma_chain_prefix(&f0, target_smtype, k);
            assert(f0.chain(base_smtype).len() == k + 1);
        }
        let ghost path = override_path(&f0, base_smtype, target_smtype);
        let n = smtype_list.len();
        let mut cur: usize = root;
        let mut k: usize = base_depth + 1;
        proof {
            assert(path.subrange(0, 0) =~= Seq::<Symbol>::empty());
        }
        while k < n - 1
            invariant
                host.wf(),
                host.factory.slots() == f0.slots(),
                host.smtype_slots == old(host).smtype_slots,
                host.type_symbols == old(host).type_symbols,
                host.method_symbols == old(host).method_symbols,
                host.output == old(host).output,
                host.data_output == old(host).data_output,
                host.diagnostics == old(host).diagnostics,
                smtype_list@ == f0.chain(target_smtype),
                n == smtype_list@.len(),
                base_depth + 1 <= k <= n - 1,
                base_depth == f0.depth(base_smtype),
                path == smtype_list@.subrange(base_depth + 1, n as int),
                forall|i: int| 0 <= i < n ==> f0.is_type(#[trigger] smtype_list@[i]),
                root <= cur < host.factory.nodes().len(),
                host.factory.node_levels()[cur as int] == k,
                f0.nodes().len() <= host.factory.nodes().len(),
                forall|x: int|
                    0 <= x < f0.nodes().len() ==> (#[trigger] host.factory.nodes()[x]).code() == f0.nodes()[x].code(),
                forall|x: int, key: usize|
                    0 <= x < f0.nodes().len() && #[trigger] f0.nodes()[x].children().has_key(key)
                        ==> host.factory.nodes()[x].children().has_key(key)
                        && host.factory.nodes()[x].children().value_of(key) == f0.nodes()[x].children().value_of(key),
                f0.wf(),
                f0.is_type(target_smtype),
                host.factory.trie_walk(root as int, path.subrange(0, k - (base_depth + 1))) == Some(cur as int),
            decreases n - k,
        {
            let m = smtype_list[k];
            proof {
                crate::runtime::lemma_chain_position_depth(&f0, target_smtype, k as int);
                crate::symbol::lemma_depth_stable(&f0, &host.factory, m);
            }
            let ghost h0 = *host;
            let ghost walked = path.subrange(0, k - (base_depth + 1));
            assert(host.factory.node_wf(cur as int));
            let existing = host.factory.override_node(cur).override_logic_mapping().get(&m);
            match existing {
                Some(next) => {
                    proof {
                        crate::symbol::lemma_trie_walk_extend(&host.factory, root as int, walked, m);
                        assert(walked.push(m) =~= path.subrange(0, k + 1 - (base_depth + 1)));
                    }
                    cur = next;
                },
                None => {
                    let fresh = host.factory.create_override_node(Ghost((k + 1) as nat));
                    proof {
                        crate::symbol::lemma_depth_stable(&f0, &host.factory, m);
                    }
                    host.factory.set_override_child(cur, m, fresh);
                    proof {
                        crate::symbol::lemma_trie_walk_bounds(&h0.factory, root as int, walked);
                        crate::symbol::lemma_trie_walk_stable(&h0.factory, &host.factory, root as int, walked);
                        crate::symbol::lemma_trie_walk_extend(&host.factory, root as int, walked, m);
                        assert(walked.push(m) =~= path.subrange(0, k + 1 - (base_depth + 1)));
                        crate::layout::lemma_extends_keeps_host(&h0, host);
                    }
                    cur = fresh;
                },
            }
            k += 1;
        }

        // The forwarding code: re-wrap `self` in the layers of the types
        // below the base, then call the override.
        let below = below.split_off(base_depth + 1);
        assert(below@ =~= path);
        let layers = Symbol::create_layers_over_weak_root("self", below.as_slice(), &host.factory);
        let mut code = String::new();
        code.append("return ");
        code.append(layers.as_str());
        code.append(".");
        code.append(method_name);
        code.append("(");
        code.append(input_args);
        code.append(");");
        proof {
            assert(host.factory.names_of(path) =~= f0.names_of(path));
            assert(code@ =~= override_code_text(layers_text(f0.names_of(path), "self"@), method_name@, input_args@));
        }
        let ghost code_view = code@;
        let ghost h1 = *host;
        let ghost walked = path.subrange(0, n - 1 - (base_depth + 1));
        let leaf = host.factory.create_override_node(Ghost(n as nat));
        host.factory.set_override_code(leaf, Some(code));
        proof {
            crate::runtime::lemma_chain_position_depth(&f0, target_smtype, (n - 1) as int);
            crate::symbol::lemma_depth_stable(&f0, &host.factory, target_smtype);
        }
        host.factory.set_override_child(cur, target_smtype, leaf);
        proof {
            assert(smtype_list@[n - 1] == target_smtype);
            crate::symbol::lemma_trie_walk_bounds(&h1.factory, root as int, walked);
            crate::symbol::lemma_trie_walk_stable(&h1.factory, &host.factory, root as int, walked);
            crate::symbol::lemma_trie_walk_extend(&host.factory, root as int, walked, target_smtype);
            assert(walked.push(target_smtype) =~= path);
            crate::layout::lemma_extends_keeps_host(&h1, host);
            assert(leaf != cur);
            assert(host.factory.nodes()[leaf as int].code() == Some(code_view));
        }
    }

    /// Processes method `node` of type `smtype`, the type declared at
    /// `type_index`. A method without receiver is output as declared. An
    /// instance method must take exactly `&self`; it gets a slot, its
    /// documentation (inherited for `inheritdoc`), its non-dispatching
    /// implementation with `super` calls rewritten, and, for `override`, a
    /// leaf in the override trie of the nearest ancestor method of its name.
    /// Fails when the receiver is wrong or the name is taken.
    pub fn exec(&self, host: &mut SModelHost, node: &mut SmTypeMethod, smtype: Symbol, type_index: usize) -> (r: bool)
        requires
            old(host).wf(),
            old(host).factory.is_type(smtype),
            type_index < old(host).method_symbols@.len(),
        ensures
            final(host).wf(),
            final(host).factory.extends(&old(host).factory),
            final(host).smtype_slots == old(host).smtype_slots,
            final(host).type_symbols == old(host).type_symbols,
            final(host).method_symbols@.len() == old(host).method_symbols@.len(),
            final(host).output == old(host).output,
            final(host).data_output == old(host).data_output,
            old(host).diagnostics@.len() <= final(host).diagnostics@.len(),
            final(node).name == old(node).name,
            final(node).inputs == old(node).inputs,
            forall|i: int|
                0 <= i < old(host).method_symbols@.len() && i != type_index ==> #[trigger] final(host).method_symbols@[i]
                    == old(host).method_symbols@[i],
            !r ==> final(host).diagnostics@.len() > old(host).diagnostics@.len(),
            r ==> final(host).method_symbols@[type_index as int]@.len() == old(host).method_symbols@[type_index as int]@.len() + 1,
            r ==> (final(host).method_symbols@[type_index as int]@.last() is Some ==> final(node).inputs@.len() > 0),
            forall|i: int|
                0 <= i < old(host).factory.slots().len() && i != smtype.0 ==> #[trigger] final(host).factory.slots()[i]
                    == old(host).factory.slots()[i],
            begins_with_no_receiver_spec(old(node).inputs@) ==> final(host).diagnostics == old(host).diagnostics,
            begins_with_no_receiver_spec(old(node).inputs@) ==> final(host).factory.type_slot(smtype).methods == old(host).factory.type_slot(smtype).methods,
            r && !begins_with_no_receiver_spec(old(node).inputs@) ==> forall|k: Seq<char>|
                #[trigger] final(host).factory.type_slot(smtype).methods.has_key(k) == (k == old(node).name@
                    || old(host).factory.type_slot(smtype).methods.has_key(k)),
            final(host).factory.is_type(smtype),
            final(host).factory.parent(smtype) == old(host).factory.parent(smtype),
            !begins_with_no_receiver_spec(old(node).inputs@) && !begins_with_instance_receiver_spec(old(node).inputs@) ==> {
                &&& final(host).diagnostics@ == old(host).diagnostics@.push(final(host).diagnostics@.last())
                &&& (final(host).diagnostics@.last() matches Diagnostic::ReceiverNotRef(n) && n@ == old(node).name@)
                &&& final(host).factory == old(host).factory
            },
            !begins_with_no_receiver_spec(old(node).inputs@) && begins_with_instance_receiver_spec(old(node).inputs@)
                && old(host).factory.type_slot(smtype).methods.has_key(old(node).name@) ==> {
                &&& final(host).factory.type_slot(smtype).methods == old(host).factory.type_slot(smtype).methods
                &&& final(host).factory.type_slot(smtype).method_output == old(host).factory.type_slot(smtype).method_output
                &&& (final(host).diagnostics@.last() matches Diagnostic::Redefining(n) && n@ == old(node).name@)
            },
            r && !begins_with_no_receiver_spec(old(node).inputs@) ==> final(host).diagnostics@.len()
                == old(host).diagnostics@.len() + method_problem_count(&old(host).factory, smtype, old(node)),
            r && !begins_with_no_receiver_spec(old(node).inputs@) && (old(node).is_override || has_inheritdoc(old(node).attributes@))
                && old(host).factory.base_method(smtype, old(node).name@) is None ==> exists|j: int|
                old(host).diagnostics@.len() <= j < final(host).diagnostics@.len()
                    && (#[trigger] final(host).diagnostics@[j] matches Diagnostic::NoMethodInBase(n) && n@ == old(node).name@),
            !(r && old(node).is_override && old(host).factory.base_method(smtype, old(node).name@) is Some) ==> forall|n: int|
                0 <= n < old(host).factory.nodes().len() ==> #[trigger] final(host).factory.nodes()[n] == old(host).factory.nodes()[n],
            r && !begins_with_no_receiver_spec(old(node).inputs@) && has_inheritdoc(old(node).attributes@)
                && old(host).factory.base_method(smtype, old(node).name@) is Some ==> {
                let base = old(host).factory.base_method(smtype, old(node).name@)->0;
                let slot = final(host).factory.type_slot(smtype).methods.value_of(old(node).name@);
                &&& doc_attrs_view(final(host).factory.method_slot(slot).doc_attribute@) == doc_attrs_view(old(host).factory.method_slot(base).doc_attribute@)
                &&& attrs_view(final(node).attributes@) == attrs_view(without_inheritdoc(old(node).attributes@))
                    + doc_attrs_view(old(host).factory.method_slot(base).doc_attribute@)
            },
            r == (begins_with_no_receiver_spec(old(node).inputs@) || (begins_with_instance_receiver_spec(old(node).inputs@)
                && !old(host).factory.type_slot(smtype).methods.has_key(old(node).name@))),
            begins_with_no_receiver_spec(old(node).inputs@) ==> {
                &&& final(host).factory.type_slot(smtype).method_output@ == old(host).factory.type_slot(smtype).method_output@
                    + static_method_text(
                    attrs_text(old(node).attributes@),
                    old(node).visibility@,
                    old(node).name@,
                    type_params_text(old(node).generics),
                    inputs_text(old(node).inputs@),
                    result_text(old(node).result_type),
                    old(node).generics.where_clause@,
                    crate::rewrite::tokens_text(old(node).statements@),
                )
                &&& final(host).method_symbols@[type_index as int]@ == old(host).method_symbols@[type_index as int]@.push(None)
            },
            r && !begins_with_no_receiver_spec(old(node).inputs@) ==> {
                let f = final(host).factory;
                let slot = f.type_slot(smtype).methods.value_of(old(node).name@);
                &&& f.is_method(slot)
                &&& f.method_slot(slot).defined_in == smtype
                &&& final(host).method_symbols@[type_index as int]@ == old(host).method_symbols@[type_index as int]@.push(Some(slot))
                &&& f.type_slot(smtype).method_output@ == old(host).factory.type_slot(smtype).method_output@
                    + nondispatch_method_text(
                    other_attrs_text(old(node).attributes@),
                    old(node).name@,
                    type_params_text(old(node).generics),
                    inputs_text(old(node).inputs@.drop_first()),
                    result_text(old(node).result_type),
                    old(node).generics.where_clause@,
                    rewrite_text(&old(host).factory, smtype, old(node).statements@, 0),
                )
                &&& old(node).is_override && f.base_method(smtype, old(node).name@) is Some ==> {
                    let base = f.base_method(smtype, old(node).name@)->0;
                    let owner = f.method_slot(base).defined_in;
                    let path = override_path(&f, owner, smtype);
                    let root = f.method_slot(base).override_root as int;
                    &&& f.trie_walk(root, path) is Some
                    &&& f.nodes()[f.trie_walk(root, path)->0].code() == Some(override_code_text(
                        layers_text(f.names_of(path), "self"@),
                        old(node).name@,
                        arguments_text(old(node).inputs@.drop_first()),
                    ))
                }
            },
    {
        if Self::begins_with_no_receiver(node.inputs.as_slice()) {
            // A method without receiver.
            let code = self.static_method(node);
            host.factory.append_method_output(smtype, code.as_str());
            let ghost h0 = *host;
            proof {
                crate::layout::lemma_extends_keeps_host(&old(host), &h0);
            }
            host.method_symbols[type_index].push(None);
            proof {
                self.lemma_symbols_pushed(&h0, host, type_index as int);
            }
            return true;
        }
        if !Self::begins_with_instance_receiver(node.inputs.as_slice()) {
            host.diagnostics.push(Diagnostic::ReceiverNotRef(node.name.clone()));
            return false;
        }
        let ghost f0 = host.factory;
        let ghost attrs0 = node.attributes@;
        // The body, with its `super` calls rewritten.
        let statements = self.process_super_expression(host, &node.statements, smtype);

        // A slot with the documentation that the method carries.
        let doc = doc_texts(&node.attributes);
        let inherit = has_inheritdoc_attr(&node.attributes);
        let ghost hs = *host;
        let slot = host.factory.create_method_slot(node.name.clone(), smtype, doc);
        let ghost h1 = *host;
        host.method_symbols[type_index].push(Some(slot));
        proof {
            crate::layout::lemma_extends_keeps_host(&hs, &h1);
            self.lemma_symbols_pushed(&h1, host, type_index as int);
        }
        assert(host.factory.type_wf(smtype.0 as int));
        if smtype.methods(&host.factory).has(&node.name) {
            host.diagnostics.push(Diagnostic::Redefining(node.name.clone()));
            return false;
        }
        let ghost h2 = *host;
        host.factory.add_method(smtype, node.name.clone(), slot);
        proof {
            crate::layout::lemma_extends_keeps_host(&h2, host);
        }

        // `inheritdoc`: take the documentation of the method overridden.
        let ghost d0 = host.diagnostics@.len();
        proof {
            self.lemma_entry_frame(&f0, &host.factory, smtype);
        }
        if inherit {
            remove_inheritdoc(&mut node.attributes);
            match smtype.lookup_method_in_base_smtype(node.name.as_str(), &host.factory) {
                Some(base_method) => {
                    proof {
                        lemma_base_method_owner(&host.factory, smtype, node.name@);
                        lemma_base_method_owner(&f0, smtype, node.name@);
                        assert(base_method.0 != smtype.0 && base_method.0 < f0.slots().len());
                    }
                    let base_doc = base_method.doc_attribute(&host.factory);
                    let ghost h3 = *host;
                    slot.set_doc_attribute(&mut host.factory, base_doc);
                    proof {
                        crate::layout::lemma_extends_keeps_host(&h3, host);
                        assert(host.factory.slots()[base_method.0 as int] == h3.factory.slots()[base_method.0 as int]);
                        assert(doc_attrs_view(host.factory.method_slot(slot).doc_attribute@) =~= doc_attrs_view(f0.method_slot(base_method).doc_attribute@));
                    }
                    let base_doc = base_method.doc_attribute(&host.factory);
                    push_docs(&mut node.attributes, &base_doc);
                    proof {
                        assert(doc_attrs_view(base_doc@) =~= doc_attrs_view(f0.method_slot(base_method).doc_attribute@));
                    }
                },
                None => {
                    host.diagnostics.push(Diagnostic::NoMethodInBase(node.name.clone()));
                },
            }
        }
        let ghost d1 = host.diagnostics@;

        // The arguments that forward the parameters.
        let input_args = convert_function_input_to_arguments(host, node.inputs.as_slice(), 1);
        proof {
            assert(node.inputs@.subrange(1, node.inputs@.len() as int) =~= node.inputs@.drop_first());
        }
        let ghost fx = host.factory;
        proof {
            self.lemma_entry_frame(&f0, &fx, smtype);
        }

        // `override`: register the override with the nearest ancestor
        // method of the same name.
        if node.is_override {
            match smtype.lookup_method_in_base_smtype(node.name.as_str(), &host.factory) {
                Some(base_method) => {
                    proof {
                        lemma_base_method_owner(&host.factory, smtype, node.name@);
                        assert(host.factory.method_wf(base_method.0 as int));
                    }
                    let owner = base_method.defined_in(&host.factory);
                    let root = base_method.override_root(&host.factory);
                    self.perform_override(host, node.name.as_str(), root, owner, smtype, input_args.as_str());
                },
                None => {
                    host.diagnostics.push(Diagnostic::NoMethodInBase(node.name.clone()));
                },
            }
        }
        let ghost fo = host.factory;
        proof {
            // Diagnostics only grew since the `inheritdoc` step.
            assert(host.diagnostics@.subrange(0, d1.len() as int) =~= d1);
            if inherit && f0.base_method(smtype, node.name@) is None {
                assert(d1[d0 as int] == host.diagnostics@[d0 as int]);
                assert(host.diagnostics@[d0 as int] matches Diagnostic::NoMethodInBase(n) && n@ == node.name@);
            } else if node.is_override && f0.base_method(smtype, node.name@) is None {
                let j = host.diagnostics@.len() - 1;
                assert(host.diagnostics@[j] matches Diagnostic::NoMethodInBase(n) && n@ == node.name@);
            }
        }

        let code = self.nondispatch_method(node, &statements);
        let ghost h5 = *host;
        host.factory.append_method_output(smtype, code.as_str());
        proof {
            crate::layout::lemma_extends_keeps_host(&h5, host);
            if node.is_override {
                self.lemma_override_stable(&fx, &fo, &host.factory, smtype, node.name@, arguments_text(node.inputs@.drop_first()));
            }
        }
        true
    }

    /// Between the entry of the method pass and a later point, only the
    /// record of `t` changed among the slots that were there, so what is
    /// found above `t` is what was found on entry.
    pub proof fn lemma_entry_frame(&self, f0: &LmtFactory, f: &LmtFactory, t: Symbol)
        requires
            f0.wf(),
            f.wf(),
            f0.is_type(t),
            f.is_type(t),
            f.parent(t) == f0.parent(t),
            f.name_of(t) == f0.name_of(t),
            f0.slots().len() <= f.slots().len(),
            forall|i: int| 0 <= i < f0.slots().len() && i != t.0 ==> #[trigger] f.slots()[i] == f0.slots()[i],
        ensures
            forall|n: Seq<char>| #[trigger] f.base_method(t, n) == f0.base_method(t, n),
    {
        crate::symbol::lemma_hierarchy_stable(f0, f, t);
    }

    /// What the override registration established survives the appending
    /// of the type's code.
    proof fn lemma_override_stable(&self, fx: &LmtFactory, fo: &LmtFactory, f: &LmtFactory, t: Symbol, name: Seq<char>, args: Seq<char>)
        requires
            fx.wf(),
            fo.wf(),
            f.wf(),
            fx.is_type(t),
            fo.slots() == fx.slots(),
            f.only_type_changed(fo, t),
            f.type_slot(t).inherits == fo.type_slot(t).inherits,
            fx.base_method(t, name) is Some ==> {
                let base = fx.base_method(t, name)->0;
                let owner = fx.method_slot(base).defined_in;
                let path = override_path(fx, owner, t);
                let root = fx.method_slot(base).override_root as int;
                &&& fo.trie_walk(root, path) is Some
                &&& fo.nodes()[fo.trie_walk(root, path)->0].code() == Some(override_code_text(
                    layers_text(fx.names_of(path), "self"@),
                    name,
                    args,
                ))
            },
        ensures
            f.base_method(t, name) is Some ==> {
                let base = f.base_method(t, name)->0;
                let owner = f.method_slot(base).defined_in;
                let path = override_path(f, owner, t);
                let root = f.method_slot(base).override_root as int;
                &&& f.trie_walk(root, path) is Some
                &&& f.nodes()[f.trie_walk(root, path)->0].code() == Some(override_code_text(
                    layers_text(f.names_of(path), "self"@),
                    name,
                    args,
                ))
            },
    {
        crate::symbol::lemma_hierarchy_stable(fx, f, t);
        if f.base_method(t, name) is Some {
            let base = f.base_method(t, name)->0;
            lemma_base_method_owner(fx, t, name);
            assert(f.slots()[base.0 as int] == fx.slots()[base.0 as int]);
            let owner = fx.method_slot(base).defined_in;
            crate::runtime::lemma_ancestor_position(fx, t, owner);
            crate::symbol::lemma_asc_chain_shape(fx, t);
            assert(f.depth(owner) == fx.depth(owner));
            let path = override_path(fx, owner, t);
            assert(override_path(f, owner, t) == path);
            crate::runtime::lemma_names_of_subrange(fx, f, fx.chain(t), fx.depth(owner) + 1 as int, fx.chain(t).len() as int);
            let root = fx.method_slot(base).override_root as int;
            crate::symbol::lemma_trie_walk_same_nodes(fo, f, root, path);
        }
    }

    /// A method without receiver, as declared.
    fn static_method(&self, node: &SmTypeMethod) -> (r: String)
        ensures
            r@ == static_method_text(
                attrs_text(node.attributes@),
                node.visibility@,
                node.name@,
                type_params_text(node.generics),
                inputs_text(node.inputs@),
                result_text(node.result_type),
                node.generics.where_clause@,
                crate::rewrite::tokens_text(node.statements@),
            ),
    {
        let mut out = String::new();
        crate::handle::push_attributes(&mut out, &node.attributes);
        out.append(node.visibility.as_str());
        out.append(" fn ");
        out.append(node.name.as_str());
        push_type_params(&mut out, &node.generics);
        out.append("(");
        push_inputs(&mut out, node.inputs.as_slice(), 0);
        assert(node.inputs@.subrange(0, node.inputs@.len() as int) =~= node.inputs@);
        out.append(") ");
        push_result(&mut out, &node.result_type);
        out.append(" ");
        out.append(node.generics.where_clause.as_str());
        out.append(" { ");
        let body = crate::rewrite::render_tokens(&node.statements);
        out.append(body.as_str());
        out.append(" } ");
        out
    }

    /// The non-dispatching implementation of an instance method.
    fn nondispatch_method(&self, node: &SmTypeMethod, statements: &String) -> (r: String)
        requires
            node.inputs@.len() > 0,
        ensures
            r@ == nondispatch_method_text(
                other_attrs_text(node.attributes@),
                node.name@,
                type_params_text(node.generics),
                inputs_text(node.inputs@.drop_first()),
                result_text(node.result_type),
                node.generics.where_clause@,
                statements@,
            ),
    {
        let mut out = String::new();
        push_other_attributes(&mut out, &node.attributes);
        out.append("fn __nd_");
        out.append(node.name.as_str());
        push_type_params(&mut out, &node.generics);
        out.append("(&self, ");
        push_inputs(&mut out, node.inputs.as_slice(), 1);
        assert(node.inputs@.subrange(1, node.inputs@.len() as int) =~= node.inputs@.drop_first());
        out.append(") ");
        push_result(&mut out, &node.result_type);
        out.append(" ");
        out.append(node.generics.where_clause.as_str());
        out.append(" { ");
        out.append(statements.as_str());
        out.append(" } ");
        out
    }

    proof fn lemma_symbols_pushed(&self, a: &SModelHost, b: &SModelHost, ti: int)
        requires
            a.wf(),
            0 <= ti < a.method_symbols@.len(),
            b.factory == a.factory,
            b.smtype_slots == a.smtype_slots,
            b.type_symbols == a.type_symbols,
            b.method_symbols@.len() == a.method_symbols@.len(),
            forall|i: int| 0 <= i < a.method_symbols@.len() && i != ti ==> #[trigger] b.method_symbols@[i] == a.method_symbols@[i],
            b.method_symbols@[ti]@.len() == a.method_symbols@[ti]@.len() + 1,
            forall|j: int| 0 <= j < a.method_symbols@[ti]@.len() ==> #[trigger] b.method_symbols@[ti]@[j] == a.method_symbols@[ti]@[j],
            b.method_symbols@[ti]@.last() matches Some(s) ==> b.factory.is_method(s),
        ensures
            b.wf(),
    {
        assert forall|i: int, j: int|
            0 <= i < b.method_symbols@.len() && 0 <= j < b.method_symbols@[i]@.len()
                && #[trigger] b.method_symbols@[i]@[j] is Some implies b.factory.is_method(
            b.method_symbols@[i]@[j]->0,
        ) by {
            if i != ti || j < a.method_symbols@[ti]@.len() {
                assert(a.factory.is_method(a.method_symbols@[i]@[j]->0));
            }
        }
    }
}

} // verus!
