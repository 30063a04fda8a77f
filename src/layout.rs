use crate::host::{Diagnostic, SModelHost};
use crate::symbol::{LmtFactory, Symbol};
use crate::tree::SmTypeField;
use vstd::prelude::*;

verus! {

/// The storage of a field in the record of its type.
pub open spec fn field_decl_text(is_ref: bool, name: Seq<char>, ty: Seq<char>) -> Seq<char> {
    if is_ref {
        "pub "@ + name + ": ::std::cell::RefCell<"@ + ty + ">, "@
    } else {
        "pub "@ + name + ": ::std::cell::Cell<"@ + ty + ">, "@
    }
}

/// An expression that reaches field `field` of the record of the last type
/// of `names`, from the record `base` of the type at position `i`, by
/// descending the discriminant chain one level at a time.
pub open spec fn match_field_text(names: Seq<Seq<char>>, i: int, base: Seq<char>, field: Seq<char>) -> Seq<char>
    decreases names.len() - i,
{
    if i + 1 >= names.len() {
        "(&"@ + base + "."@ + field + ")"@
    } else {
        "(if let __data__::__variant_"@ + names[i] + "::__data_"@ + names[i + 1] + "(o) = &"@ + base
            + ".__variant { "@ + match_field_text(names, i + 1, "o"@, field) + " } else { panic!() })"@
    }
}

/// The getter and setter of a field, over the place `fv` that holds it.
pub open spec fn accessor_text(is_ref: bool, name: Seq<char>, ty: Seq<char>, fv: Seq<char>) -> Seq<char> {
    if is_ref {
        "#[allow(non_snake_case)] fn "@ + name + "(&self) -> "@ + ty + " { "@ + fv
            + ".borrow().clone() } #[allow(non_snake_case)] fn set_"@ + name + "(&self, v: "@ + ty
            + ") { "@ + fv + ".replace(v); } "@
    } else {
        "#[allow(non_snake_case)] fn "@ + name + "(&self) -> "@ + ty + " { "@ + fv
            + ".get() } #[allow(non_snake_case)] fn set_"@ + name + "(&self, v: "@ + ty + ") { "@ + fv
            + ".set(v); } "@
    }
}

/// The field pass: slots, storage and accessors of declared fields.
pub struct ProcessingStep3_2();

impl ProcessingStep3_2 {
    /// Registers `field` in type `smtype`, adds its storage to
    /// `field_output` and its accessors to the type's methods. Fails, with a
    /// diagnostic, when the type already has a field of that name.
    pub fn exec(
        &self,
        host: &mut SModelHost,
        smtype: Symbol,
        field: &SmTypeField,
        base_accessor: &str,
        asc_smtype_list: &[Symbol],
        field_output: &mut String,
    ) -> (r: bool)
        requires
            old(host).wf(),
            old(host).factory.is_type(smtype),
            asc_smtype_list@.len() > 0,
            forall|i: int|
                0 <= i < asc_smtype_list@.len() ==> (#[trigger] asc_smtype_list@[i]).0
                    < old(host).factory.slots().len(),
        ensures
            final(host).wf(),
            final(host).factory.extends(&old(host).factory),
            final(host).smtype_slots == old(host).smtype_slots,
            final(host).type_symbols == old(host).type_symbols,
            final(host).method_symbols == old(host).method_symbols,
            final(host).output == old(host).output,
            final(host).data_output == old(host).data_output,
            r == !old(host).factory.type_slot(smtype).fields.has_key(field.name@),
            r ==> {
                let t = final(host).factory.type_slot(smtype);
                let fs = final(host).factory.field_slot(t.fields.value_of(field.name@));
                &&& final(host).diagnostics == old(host).diagnostics
                &&& t.fields.keys() == old(host).factory.type_slot(smtype).fields.keys().push(field.name@)
                &&& final(host).factory.is_field(t.fields.value_of(field.name@))
                &&& fs.is_ref == field.is_ref
                &&& fs.field_type@ == field.type_annotation@
                &&& fs.field_init@ == field.default_value@
                &&& final(field_output)@ == old(field_output)@ + field_decl_text(
                    field.is_ref,
                    field.name@,
                    field.type_annotation@,
                )
                &&& t.method_output@ == old(host).factory.type_slot(smtype).method_output@
                    + accessor_text(
                    field.is_ref,
                    field.name@,
                    field.type_annotation@,
                    match_field_text(
                        old(host).factory.names_of(asc_smtype_list@),
                        0,
                        base_accessor@ + ".upgrade().unwrap()"@,
                        field.name@,
                    ),
                )
            },
            !r ==> final(host).diagnostics@ == old(host).diagnostics@.push(final(host).diagnostics@.last())
                && (final(host).diagnostics@.last() matches Diagnostic::Redefining(n) && n@ == field.name@),
            !r ==> *final(field_output) == *old(field_output),
            !r ==> final(host).factory.type_slot(smtype) == old(host).factory.type_slot(smtype),
            final(host).factory.is_type(smtype),
            final(host).factory.type_slot(smtype).methods == old(host).factory.type_slot(smtype).methods,
            forall|i: int|
                0 <= i < old(host).factory.slots().len() && i != smtype.0 ==> #[trigger] final(host).factory.slots()[i]
                    == old(host).factory.slots()[i],
    {
        // Create a field slot.
        let slot = host.factory.create_field_slot(
            field.is_ref,
            field.name.clone(),
            field.type_annotation.clone(),
            field.default_value.clone(),
        );
        proof {
            self.lemma_host_extended(old(host), host);
        }
        assert(host.factory.type_wf(smtype.0 as int));
        // Contribute the field slot to the type slot.
        if smtype.fields(&host.factory).has(&field.name) {
            host.diagnostics.push(Diagnostic::Redefining(field.name.clone()));
            return false;
        }
        let ghost h1 = *host;
        host.factory.add_field(smtype, field.name.clone(), slot);
        proof {
            self.lemma_host_extended(&h1, host);
            assert(host.factory.extends(&old(host).factory));
        }
        // Contribute the storage to the record of the type.
        let field_type = slot.field_type(&host.factory);
        if slot.is_ref(&host.factory) {
            field_output.append("pub ");
            field_output.append(field.name.as_str());
            field_output.append(": ::std::cell::RefCell<");
            field_output.append(field_type.as_str());
            field_output.append(">, ");
        } else {
            field_output.append("pub ");
            field_output.append(field.name.as_str());
            field_output.append(": ::std::cell::Cell<");
            field_output.append(field_type.as_str());
            field_output.append(">, ");
        }
        // Define the accessors.
        let ghost h2 = *host;
        self.define_accessors(host, smtype, slot, &field.name, &field_type, base_accessor, asc_smtype_list);
        proof {
            self.lemma_host_extended(&h2, host);
            assert(host.factory.extends(&old(host).factory));
            assert(old(host).factory.names_of(asc_smtype_list@) =~= h2.factory.names_of(asc_smtype_list@));
        }
        true
    }

    fn define_accessors(
        &self,
        host: &mut SModelHost,
        smtype: Symbol,
        slot: Symbol,
        field_name: &String,
        field_type: &String,
        base_accessor: &str,
        asc_smtype_list: &[Symbol],
    )
        requires
            old(host).wf(),
            old(host).factory.is_type(smtype),
            old(host).factory.is_field(slot),
            asc_smtype_list@.len() > 0,
            forall|i: int|
                0 <= i < asc_smtype_list@.len() ==> (#[trigger] asc_smtype_list@[i]).0
                    < old(host).factory.slots().len(),
        ensures
            final(host).factory.wf(),
            final(host).factory.only_type_changed(&old(host).factory, smtype),
            final(host).factory.type_slot(smtype).fields == old(host).factory.type_slot(smtype).fields,
            final(host).factory.type_slot(smtype).methods == old(host).factory.type_slot(smtype).methods,
            final(host).factory.type_slot(smtype).subtypes == old(host).factory.type_slot(smtype).subtypes,
            final(host).factory.type_slot(smtype).inherits == old(host).factory.type_slot(smtype).inherits,
            final(host).smtype_slots == old(host).smtype_slots,
            final(host).type_symbols == old(host).type_symbols,
            final(host).method_symbols == old(host).method_symbols,
            final(host).output == old(host).output,
            final(host).data_output == old(host).data_output,
            final(host).diagnostics == old(host).diagnostics,
            final(host).factory.type_slot(smtype).method_output@ == old(host).factory.type_slot(
                smtype,
            ).method_output@ + accessor_text(
                old(host).factory.field_slot(slot).is_ref,
                field_name@,
                field_type@,
                match_field_text(
                    old(host).factory.names_of(asc_smtype_list@),
                    0,
                    base_accessor@ + ".upgrade().unwrap()"@,
                    field_name@,
                ),
            ),
    {
        let mut base = String::new();
        base.append(base_accessor);
        base.append(".upgrade().unwrap()");
        let fv = self.match_field(asc_smtype_list, 0, base.as_str(), field_name.as_str(), &host.factory);
        let mut code = String::new();
        code.append("#[allow(non_snake_case)] fn ");
        code.append(field_name.as_str());
        code.append("(&self) -> ");
        code.append(field_type.as_str());
        code.append(" { ");
        code.append(fv.as_str());
        if slot.is_ref(&host.factory) {
            code.append(".borrow().clone() } #[allow(non_snake_case)] fn set_");
            code.append(field_name.as_str());
            code.append("(&self, v: ");
            code.append(field_type.as_str());
            code.append(") { ");
            code.append(fv.as_str());
            code.append(".replace(v); } ");
        } else {
            code.append(".get() } #[allow(non_snake_case)] fn set_");
            code.append(field_name.as_str());
            code.append("(&self, v: ");
            code.append(field_type.as_str());
            code.append(") { ");
            code.append(fv.as_str());
            code.append(".set(v); } ");
        }
        host.factory.append_method_output(smtype, code.as_str());
    }

    /// Matches a field. `base` is the record of the type at position
    /// `smtype_index` of the chain.
    fn match_field(
        &self,
        asc_smtype_list: &[Symbol],
        smtype_index: usize,
        base: &str,
        field_name: &str,
        f: &LmtFactory,
    ) -> (r: String)
        requires
            smtype_index < asc_smtype_list@.len(),
            forall|i: int|
                0 <= i < asc_smtype_list@.len() ==> (#[trigger] asc_smtype_list@[i]).0 < f.slots().len(),
        ensures
            r@ == match_field_text(f.names_of(asc_smtype_list@), smtype_index as int, base@, field_name@),
        decreases asc_smtype_list@.len() - smtype_index,
    {
        let mut out = String::new();
        if smtype_index >= asc_smtype_list.len() - 1 {
            out.append("(&");
            out.append(base);
            out.append(".");
            out.append(field_name);
            out.append(")");
            return out;
        }
        let inherited = asc_smtype_list[smtype_index].name(f);
        let smtype = asc_smtype_list[smtype_index + 1].name(f);
        let inner = self.match_field(asc_smtype_list, smtype_index + 1, "o", field_name, f);
        out.append("(if let __data__::__variant_");
        out.append(inherited.as_str());
        out.append("::__data_");
        out.append(smtype.as_str());
        out.append("(o) = &");
        out.append(base);
        out.append(".__variant { ");
        out.append(inner.as_str());
        out.append(" } else { panic!() })");
        out
    }

    /// A host whose factory grew by `extends` and whose other parts did not
    /// change stays well formed.
    proof fn lemma_host_extended(&self, a: &SModelHost, b: &SModelHost)
        requires
            a.wf(),
            b.factory.wf(),
            b.factory.extends(&a.factory),
            b.smtype_slots == a.smtype_slots,
            b.type_symbols == a.type_symbols,
            b.method_symbols == a.method_symbols,
        ensures
            b.wf(),
    {
        lemma_extends_keeps_host(a, b);
    }
}

/// What `extends` keeps is what the host's well-formedness asks of its
/// factory.
pub proof fn lemma_extends_keeps_host(a: &SModelHost, b: &SModelHost)
    requires
        a.wf(),
        b.factory.wf(),
        b.factory.extends(&a.factory),
        b.smtype_slots == a.smtype_slots,
        b.type_symbols == a.type_symbols,
        b.method_symbols == a.method_symbols,
    ensures
        b.wf(),
{
    assert forall|k: Seq<char>|
        #[trigger] b.smtype_slots.has_key(k) implies b.factory.is_type(b.smtype_slots.value_of(k))
            && b.factory.name_of(b.smtype_slots.value_of(k)) == k by {
        let v = a.smtype_slots.value_of(k);
        assert(a.factory.is_type(v));
        assert(b.factory.slots()[v.0 as int] is SmTypeSlot);
    }
    assert forall|i: int|
        0 <= i < b.type_symbols@.len() implies b.factory.is_type(#[trigger] b.type_symbols@[i]) by {
        let v = a.type_symbols@[i];
        assert(a.factory.is_type(v));
        assert(b.factory.slots()[v.0 as int] is SmTypeSlot);
    }
    assert forall|i: int, j: int|
        0 <= i < b.method_symbols@.len() && 0 <= j < b.method_symbols@[i]@.len()
            && #[trigger] b.method_symbols@[i]@[j] is Some implies b.factory.is_method(
        b.method_symbols@[i]@[j]->0,
    ) by {
        let v = a.method_symbols@[i]@[j]->0;
        assert(a.factory.is_method(v));
        assert(b.factory.slots()[v.0 as int] is MethodSlot);
    }
}

} // verus!
