use crate::host::{Diagnostic, SModelHost};
use crate::symbol::Symbol;
use crate::tree::SmType;
use vstd::prelude::*;

verus! {

/// The binding pass: one type slot per declared type, linked to its base.
pub struct ProcessingStep2();

impl ProcessingStep2 {
    /// Creates the slot of `m`, resolves its base among the types bound so
    /// far and registers it by name. Fails, with a diagnostic, when the
    /// base is unknown or the name is taken.
    pub fn exec(&self, host: &mut SModelHost, m: &SmType) -> (r: bool)
        requires
            old(host).wf(),
            old(host).factory.nodes().len() == 0,
        ensures
            final(host).wf(),
            final(host).factory.nodes().len() == 0,
            final(host).factory.extends(&old(host).factory),
            forall|i: int|
                0 <= i < old(host).factory.slots().len() && #[trigger] old(host).factory.slots()[i] is SmTypeSlot
                    ==> final(host).factory.type_slot(Symbol(i as usize)).fields == old(host).factory.type_slot(Symbol(i as usize)).fields
                    && final(host).factory.type_slot(Symbol(i as usize)).methods == old(host).factory.type_slot(Symbol(i as usize)).methods,
            final(host).method_symbols == old(host).method_symbols,
            final(host).output == old(host).output,
            final(host).data_output == old(host).data_output,
            r == ((match m.inherits {
                Some(b) => old(host).smtype_slots.has_key(b@),
                None => true,
            }) && !old(host).smtype_slots.has_key(m.name@)),
            r ==> {
                let slot = Symbol(old(host).factory.slots().len() as usize);
                &&& final(host).diagnostics == old(host).diagnostics
                &&& final(host).type_symbols@ == old(host).type_symbols@.push(slot)
                &&& final(host).smtype_slots.keys() == old(host).smtype_slots.keys().push(m.name@)
                &&& final(host).smtype_slots.value_of(m.name@) == slot
                &&& forall|k: Seq<char>| k != m.name@ && #[trigger] old(host).smtype_slots.has_key(k)
                    ==> final(host).smtype_slots.value_of(k) == old(host).smtype_slots.value_of(k)
                &&& final(host).factory.is_type(slot)
                &&& final(host).factory.name_of(slot) == m.name@
                &&& final(host).factory.type_slot(slot).fields.len() == 0
                &&& final(host).factory.type_slot(slot).methods.len() == 0
                &&& final(host).factory.type_slot(slot).subtypes@.len() == 0
                &&& final(host).factory.parent(slot) == match m.inherits {
                    Some(b) => Some(old(host).smtype_slots.value_of(b@)),
                    None => None,
                }
                &&& match m.inherits {
                    Some(b) => {
                        let p = old(host).smtype_slots.value_of(b@);
                        final(host).factory.type_slot(p).subtypes@ == old(host).factory.type_slot(
                            p,
                        ).subtypes@.push(slot)
                    },
                    None => true,
                }
            },
            !r ==> final(host).diagnostics@.len() == old(host).diagnostics@.len() + 1,
            !r ==> final(host).smtype_slots == old(host).smtype_slots && final(host).type_symbols == old(host).type_symbols,
            !r && (m.inherits matches Some(b) && !old(host).smtype_slots.has_key(b@)) ==> forall|i: int|
                0 <= i < old(host).factory.slots().len() ==> #[trigger] final(host).factory.slots()[i] == old(host).factory.slots()[i],
            !r ==> match m.inherits {
                Some(b) => if !old(host).smtype_slots.has_key(b@) {
                    final(host).diagnostics@.last() matches Diagnostic::BaseNotFound(n) && n@ == b@
                } else {
                    final(host).diagnostics@.last() matches Diagnostic::Redefining(n) && n@ == m.name@
                },
                None => final(host).diagnostics@.last() matches Diagnostic::Redefining(n) && n@
                    == m.name@,
            },
    {
        // Create the type slot.
        let slot = host.factory.create_smtype_slot(m.name.clone());

        // Resolve the base and list the new type among its subtypes.
        if let Some(inherits) = &m.inherits {
            if let Some(inherited) = host.smtype_slots.get(inherits) {
                slot.set_inherits(&mut host.factory, Some(inherited));
                host.factory.add_subtype(inherited, slot);
            } else {
                host.diagnostics.push(Diagnostic::BaseNotFound(inherits.clone()));
                proof {
                    self.lemma_host_grew(old(host), host);
                }
                return false;
            }
        }

        // Register the type by name.
        if host.smtype_slots.has(&m.name) {
            host.diagnostics.push(Diagnostic::Redefining(m.name.clone()));
            proof {
                self.lemma_host_grew(old(host), host);
            }
            return false;
        }
        assert(host.factory.extends(&old(host).factory));
        let name = slot.name(&host.factory);
        host.smtype_slots.set(name, slot);
        host.type_symbols.push(slot);
        proof {
            assert forall|k: Seq<char>|
                #[trigger] host.smtype_slots.has_key(k) implies host.factory.is_type(host.smtype_slots.value_of(k))
                    && host.factory.name_of(host.smtype_slots.value_of(k)) == k by {
                if k != m.name@ {
                    assert(host.smtype_slots.keys().contains(k));
                    assert(old(host).smtype_slots.keys().contains(k));
                    assert(old(host).smtype_slots.has_key(k));
                    let v = old(host).smtype_slots.value_of(k);
                    assert(old(host).factory.is_type(v));
                    assert(host.factory.slots()[v.0 as int] is SmTypeSlot);
                }
            }
            assert forall|i: int|
                0 <= i < host.type_symbols@.len() implies host.factory.is_type(#[trigger] host.type_symbols@[i]) by {
                if i < old(host).type_symbols@.len() {
                    let v = old(host).type_symbols@[i];
                    assert(old(host).factory.is_type(v));
                    assert(host.factory.slots()[v.0 as int] is SmTypeSlot);
                }
            }
            self.lemma_host_grew(old(host), host);
        }
        true
    }

    /// A host whose factory only grew, or changed in the records of types,
    /// and whose name table only gained types, stays well formed.
    proof fn lemma_host_grew(&self, a: &SModelHost, b: &SModelHost)
        requires
            a.wf(),
            b.factory.wf(),
            b.smtype_slots.wf(),
            b.factory.slots().len() >= a.factory.slots().len(),
            b.factory.extends(&a.factory),
            forall|k: Seq<char>|
                #[trigger] b.smtype_slots.has_key(k) ==> b.factory.is_type(b.smtype_slots.value_of(k))
                    && b.factory.name_of(b.smtype_slots.value_of(k)) == k,
            forall|i: int|
                0 <= i < b.type_symbols@.len() ==> b.factory.is_type(#[trigger] b.type_symbols@[i]),
            b.method_symbols == a.method_symbols,
        ensures
            b.wf(),
    {
        assert forall|i: int, j: int|
            0 <= i < b.method_symbols@.len() && 0 <= j < b.method_symbols@[i]@.len()
                && #[trigger] b.method_symbols@[i]@[j] is Some implies b.factory.is_method(
            b.method_symbols@[i]@[j]->0,
        ) by {
            assert(a.factory.is_method(a.method_symbols@[i]@[j]->0));
        }
    }
}

} // verus!
