use crate::host::SModelHost;
use crate::symbol::{layers_text, LmtFactory, Symbol};
use crate::tree::{Attribute, SmType};
use vstd::prelude::*;

verus! {

/// `.0` written `n` times.
pub open spec fn dot_zeros(n: nat) -> Seq<char>
    decreases n,
{
    if n == 0 {
        Seq::empty()
    } else {
        dot_zeros((n - 1) as nat) + ".0"@
    }
}

/// The root pointer of a handle `recv` of a type at depth `depth`.
pub open spec fn root_accessor(recv: Seq<char>, depth: nat) -> Seq<char> {
    recv + ".0"@ + dot_zeros(depth)
}

/// Each attribute's text followed by a space.
pub open spec fn attrs_text(attrs: Seq<Attribute>) -> Seq<char>
    decreases attrs.len(),
{
    if attrs.len() == 0 {
        Seq::empty()
    } else {
        attrs_text(attrs.drop_last()) + attrs.last().text@ + " "@
    }
}

/// The handle type of a type: a newtype over the handle of its base, or
/// over the shared pointer to the root record for the root type, with
/// equality and hashing by identity.
pub open spec fn handle_struct_text(
    attrs: Seq<char>,
    vis: Seq<char>,
    name: Seq<char>,
    base: Option<Seq<char>>,
) -> Seq<char> {
    match base {
        Some(b) => attrs + "#[derive(Clone, PartialEq, Hash)] "@ + vis + " struct "@ + name + "("@ + b
            + "); impl ::std::ops::Deref for "@ + name + " { type Target = "@ + b
            + "; fn deref(&self) -> &Self::Target { &self.0 } } "@,
        None => attrs + "#[derive(Clone)] "@ + vis + " struct "@ + name
            + "(::std::rc::Weak<__data__::__data_"@ + name + ">); impl PartialEq for "@ + name
            + " { fn eq(&self, other: &Self) -> bool { ::std::rc::Weak::ptr_eq(&self.0, &other.0) } } impl ::std::hash::Hash for "@
            + name
            + " { fn hash<H: ::std::hash::Hasher>(&self, state: &mut H) { ::std::hash::Hash::hash(&::std::rc::Weak::as_ptr(&self.0), state) } } "@,
    }
}

pub open spec fn eq_debug_text(name: Seq<char>) -> Seq<char> {
    "impl Eq for "@ + name + " {} impl ::std::fmt::Debug for "@ + name
        + " { fn fmt(&self, f: &mut ::std::fmt::Formatter<'_>) -> ::std::fmt::Result { write!(f, \""@
        + name + "()\") } } "@
}

/// The conversion of a handle of `name` to its ancestor `ancestor`, `k`
/// levels up.
pub open spec fn upcast_text(name: Seq<char>, ancestor: Seq<char>, k: nat) -> Seq<char> {
    "impl From<"@ + name + "> for "@ + ancestor + " { fn from(v: "@ + name + ") -> Self { "@ + ancestor
        + "(v.0"@ + dot_zeros(k) + ".clone()) } } "@
}

/// The conversions to the ancestors of the last type of `names`, from the
/// nearest, for levels `1` to `k - 1`.
pub open spec fn upcasts_text(names: Seq<Seq<char>>, k: nat) -> Seq<char>
    decreases k,
{
    if k <= 1 || k > names.len() {
        Seq::empty()
    } else {
        upcasts_text(names, (k - 1) as nat) + upcast_text(
            names.last(),
            names[names.len() - k],
            (k - 1) as nat,
        )
    }
}

/// The discriminant walk of a downcast: from the record `base` of level `i`
/// of the target's chain `names`, check each discriminant in turn; at the
/// end, wrap the root pointer `root_pointer` in the target's layers.
pub open spec fn match_contravariant_text(
    names: Seq<Seq<char>>,
    i: int,
    base: Seq<char>,
    root_pointer: Seq<char>,
    path: Seq<char>,
) -> Seq<char>
    decreases names.len() - i,
{
    if i + 1 >= names.len() {
        "Ok("@ + layers_text(names, root_pointer) + ")"@
    } else {
        "if let __data__::__variant_"@ + names[i] + "::__data_"@ + names[i + 1] + "(_o) = &"@ + base
            + ".__variant { "@ + match_contravariant_text(names, i + 1, "_o"@, root_pointer, path)
            + " } else { Err("@ + path + "::SModelError::Contravariant) }"@
    }
}

pub open spec fn downcast_text(
    base_name: Seq<char>,
    sub_name: Seq<char>,
    walk: Seq<char>,
    path: Seq<char>,
) -> Seq<char> {
    "impl TryFrom<"@ + base_name + "> for "@ + sub_name + " { type Error = "@ + path
        + "::SModelError; fn try_from(v: "@ + base_name + ") -> Result<Self, Self::Error> { "@ + walk
        + " } } "@
}

impl LmtFactory {
    /// `a` is an ancestor of `s` other than `s` itself.
    pub open spec fn is_strict_ancestor(&self, a: Symbol, s: Symbol) -> bool {
        self.chain(s).drop_last().contains(a)
    }

    /// The downcasts from handles of `t` to those of its descendants among
    /// the slots before `j`, in slot order.
    pub open spec fn downcasts_text(&self, t: Symbol, j: int, path: Seq<char>) -> Seq<char>
        decreases j,
    {
        if j <= 0 {
            Seq::empty()
        } else {
            let s = Symbol((j - 1) as usize);
            self.downcasts_text(t, j - 1, path) + if self.is_type(s) && self.is_strict_ancestor(t, s) {
                downcast_text(
                    self.name_of(t),
                    self.name_of(s),
                    match_contravariant_text(
                        self.names_of(self.chain(s)),
                        0,
                        root_accessor("v"@, self.depth(t)) + ".upgrade().unwrap()"@,
                        root_accessor("v"@, self.depth(t)),
                        path,
                    ),
                    path,
                )
            } else {
                Seq::empty()
            }
        }
    }
}

/// Appends each attribute's text followed by a space.
pub fn push_attributes(out: &mut String, attrs: &Vec<Attribute>)
    ensures
        final(out)@ == old(out)@ + attrs_text(attrs@),
{
    let mut i: usize = 0;
    while i < attrs.len()
        invariant
            i <= attrs@.len(),
            out@ == old(out)@ + attrs_text(attrs@.subrange(0, i as int)),
        decreases attrs@.len() - i,
    {
        out.append(attrs[i].text.as_str());
        out.append(" ");
        proof {
            assert(attrs@.subrange(0, i + 1).drop_last() =~= attrs@.subrange(0, i as int));
        }
        i += 1;
    }
    assert(attrs@.subrange(0, attrs@.len() as int) =~= attrs@);
}

/// The root pointer of a handle `recv` of a type at depth `depth`.
pub fn root_accessor_of(recv: &str, depth: usize) -> (r: String)
    ensures
        r@ == root_accessor(recv@, depth as nat),
{
    let mut out = String::new();
    out.append(recv);
    out.append(".0");
    let ghost start = out@;
    let mut k: usize = 0;
    while k < depth
        invariant
            k <= depth,
            out@ == start + dot_zeros(k as nat),
        decreases depth - k,
    {
        out.append(".0");
        k += 1;
    }
    out
}

impl Symbol {
    /// Whether `ancestor` is an ancestor of this type other than itself.
    pub fn is_strict_descendant_of(&self, ancestor: Symbol, f: &LmtFactory) -> (r: bool)
        requires
            f.wf(),
            f.is_type(*self),
        ensures
            r == f.is_strict_ancestor(ancestor, *self),
    {
        assert(f.type_wf(self.0 as int));
        let mut m = self.inherits(f);
        proof {
            match m {
                Some(p) => {
                    assert(f.chain(*self).drop_last() =~= f.chain(p));
                },
                None => {
                    assert(f.chain(*self).drop_last() =~= Seq::<Symbol>::empty());
                },
            }
        }
        while m.is_some()
            invariant
                f.wf(),
                match m {
                    Some(c) => f.is_type(c) && (f.is_strict_ancestor(ancestor, *self) <==> f.chain(c).contains(ancestor)),
                    None => !f.is_strict_ancestor(ancestor, *self),
                },
            decreases
                match m {
                    Some(c) => c.0 + 1,
                    None => 0,
                },
        {
            let c = m.unwrap();
            assert(f.type_wf(c.0 as int));
            if c == ancestor {
                assert(f.chain(c).last() == c);
                return true;
            }
            m = c.inherits(f);
            proof {
                match m {
                    Some(p) => {
                        assert(f.chain(c) == f.chain(p).push(c));
                        assert(f.chain(c).contains(ancestor) ==> f.chain(p).contains(ancestor));
                        assert(f.chain(p).contains(ancestor) ==> f.chain(c).contains(ancestor)) by {
                            if f.chain(p).contains(ancestor) {
                                let k = choose|k: int| 0 <= k < f.chain(p).len() && f.chain(p)[k] == ancestor;
                                assert(f.chain(c)[k] == ancestor);
                            }
                        }
                    },
                    None => {
                        assert(f.chain(c) =~= seq![c]);
                    },
                }
            }
        }
        false
    }
}

/// The pass that defines the handle type of each declared type.
pub struct ProcessingStep3_6();

impl ProcessingStep3_6 {
    /// Outputs the handle type of `smtype`, declared by `node`: its struct,
    /// identity-based `Eq` and `Debug`, its conversion to each ancestor and
    /// its fallible conversion to each descendant.
    pub fn exec(&self, host: &mut SModelHost, node: &SmType, smtype: Symbol, smodel_path: &str)
        requires
            old(host).wf(),
            old(host).factory.is_type(smtype),
            old(host).factory.name_of(smtype) == node.name@,
        ensures
            final(host).factory == old(host).factory,
            final(host).smtype_slots == old(host).smtype_slots,
            final(host).type_symbols == old(host).type_symbols,
            final(host).method_symbols == old(host).method_symbols,
            final(host).data_output == old(host).data_output,
            final(host).diagnostics == old(host).diagnostics,
            ({
                let f = old(host).factory;
                final(host).output@ == old(host).output@ + handle_struct_text(
                    attrs_text(node.attributes@),
                    node.visibility@,
                    node.name@,
                    match f.parent(smtype) {
                        Some(p) => Some(f.name_of(p)),
                        None => None,
                    },
                ) + eq_debug_text(node.name@) + upcasts_text(
                    f.names_of(f.chain(smtype)),
                    f.chain(smtype).len(),
                ) + f.downcasts_text(smtype, f.slots().len() as int, smodel_path@)
            }),
    {
        let f = &host.factory;
        assert(f.type_wf(smtype.0 as int));
        let parent_name = match smtype.inherits(f) {
            Some(inherits) => Some(inherits.name(f)),
            None => None,
        };
        let head = self.handle_struct(node, &parent_name);
        let asc = smtype.asc_smtype_list(f);
        proof {
            crate::symbol::lemma_asc_chain_shape(f, smtype);
        }
        let ups = self.upcasts(&node.name, &asc, f);
        let downs = self.downcasts(smtype, &node.name, smodel_path, f);
        host.output.append(head.as_str());
        host.output.append(ups.as_str());
        host.output.append(downs.as_str());
        proof {
            assert(host.output@ =~= old(host).output@ + head@ + ups@ + downs@);
        }
    }

    /// The handle struct of `node`, with `Eq` and `Debug`.
    fn handle_struct(&self, node: &SmType, parent_name: &Option<String>) -> (r: String)
        ensures
            r@ == handle_struct_text(
                attrs_text(node.attributes@),
                node.visibility@,
                node.name@,
                match parent_name {
                    Some(p) => Some(p@),
                    None => None,
                },
            ) + eq_debug_text(node.name@),
    {
        let name = node.name.as_str();
        let mut out = String::new();
        push_attributes(&mut out, &node.attributes);
        match parent_name {
            Some(inherited_name) => {
                out.append("#[derive(Clone, PartialEq, Hash)] ");
                out.append(node.visibility.as_str());
                out.append(" struct ");
                out.append(name);
                out.append("(");
                out.append(inherited_name.as_str());
                out.append("); impl ::std::ops::Deref for ");
                out.append(name);
                out.append(" { type Target = ");
                out.append(inherited_name.as_str());
                out.append("; fn deref(&self) -> &Self::Target { &self.0 } } ");
            },
            None => {
                out.append("#[derive(Clone)] ");
                out.append(node.visibility.as_str());
                out.append(" struct ");
                out.append(name);
                out.append("(::std::rc::Weak<__data__::__data_");
                out.append(name);
                out.append(">); impl PartialEq for ");
                out.append(name);
                out.append(" { fn eq(&self, other: &Self) -> bool { ::std::rc::Weak::ptr_eq(&self.0, &other.0) } } impl ::std::hash::Hash for ");
                out.append(name);
                out.append(" { fn hash<H: ::std::hash::Hasher>(&self, state: &mut H) { ::std::hash::Hash::hash(&::std::rc::Weak::as_ptr(&self.0), state) } } ");
            },
        }
        let ghost mid = out@;
        out.append("impl Eq for ");
        out.append(name);
        out.append(" {} impl ::std::fmt::Debug for ");
        out.append(name);
        out.append(" { fn fmt(&self, f: &mut ::std::fmt::Formatter<'_>) -> ::std::fmt::Result { write!(f, \"");
        out.append(name);
        out.append("()\") } } ");
        assert(out@ =~= mid + eq_debug_text(node.name@));
        out
    }

    /// The conversions of handles of the last type of `asc` to each of its
    /// ancestors, nearest first.
    fn upcasts(&self, name: &String, asc: &Vec<Symbol>, f: &LmtFactory) -> (r: String)
        requires
            asc@.len() > 0,
            forall|i: int| 0 <= i < asc@.len() ==> (#[trigger] asc@[i]).0 < f.slots().len(),
            f.name_of(asc@.last()) == name@,
        ensures
            r@ == upcasts_text(f.names_of(asc@), asc@.len()),
    {
        let ghost names = f.names_of(asc@);
        let mut out = String::new();
        let mut k: usize = 1;
        while k < asc.len()
            invariant
                1 <= k <= asc@.len(),
                names == f.names_of(asc@),
                forall|i: int| 0 <= i < asc@.len() ==> (#[trigger] asc@[i]).0 < f.slots().len(),
                names.last() == name@,
                out@ == upcasts_text(names, k as nat),
            decreases asc@.len() - k,
        {
            let ghost prev = out@;
            let ancestor = asc[asc.len() - 1 - k].name(f);
            out.append("impl From<");
            out.append(name.as_str());
            out.append("> for ");
            out.append(ancestor.as_str());
            out.append(" { fn from(v: ");
            out.append(name.as_str());
            out.append(") -> Self { ");
            out.append(ancestor.as_str());
            out.append("(v.0");
            let ghost before_zeros = out@;
            let mut z: usize = 0;
            while z < k
                invariant
                    z <= k,
                    out@ == before_zeros + dot_zeros(z as nat),
                decreases k - z,
            {
                out.append(".0");
                z += 1;
            }
            out.append(".clone()) } } ");
            proof {
                assert(names[names.len() - (k + 1)] == ancestor@);
                assert(out@ =~= prev + upcast_text(name@, ancestor@, k as nat));
            }
            k += 1;
        }
        out
    }

    /// The fallible conversions of handles of `smtype` to those of each of
    /// its descendants, in slot order.
    #[verifier::spinoff_prover]
    #[verifier::rlimit(100)]
    fn downcasts(&self, smtype: Symbol, name: &String, smodel_path: &str, f: &LmtFactory) -> (r: String)
        requires
            f.wf(),
            f.is_type(smtype),
            f.name_of(smtype) == name@,
        ensures
            r@ == f.downcasts_text(smtype, f.slots().len() as int, smodel_path@),
    {
        let mut out = String::new();
        proof {
            lemma_asc_depth(f, smtype);
        }
        let v_accessor = root_accessor_of("v", smtype.asc_smtype_list(f).len() - 1);
        let mut v_record = v_accessor.clone();
        v_record.append(".upgrade().unwrap()");
        let n = f.slot_count();
        let mut j: usize = smtype.0 + 1;
        proof {
            self.lemma_no_downcasts_below(f, smtype, smtype.0 + 1, smodel_path@);
        }
        while j < n
            invariant
                smtype.0 < j <= n,
                n == f.slots().len(),
                f.wf(),
                f.is_type(smtype),
                f.name_of(smtype) == name@,
                v_accessor@ == root_accessor("v"@, f.depth(smtype)),
                v_record@ == root_accessor("v"@, f.depth(smtype)) + ".upgrade().unwrap()"@,
                out@ == f.downcasts_text(smtype, j as int, smodel_path@),
            decreases n - j,
        {
            let s = Symbol(j);
            let ghost before = out@;
            if s.is_smtype_slot(f) && s.is_strict_descendant_of(smtype, f) {
                let sub_asc = s.asc_smtype_list(f);
                proof {
                    crate::symbol::lemma_asc_chain_shape(f, s);
                }
                let walk = self.match_contravariant(&sub_asc, 0, v_record.as_str(), v_accessor.as_str(), smodel_path, f);
                let sub_name = s.name(f);
                out.append("impl TryFrom<");
                out.append(name.as_str());
                out.append("> for ");
                out.append(sub_name.as_str());
                out.append(" { type Error = ");
                out.append(smodel_path);
                out.append("::SModelError; fn try_from(v: ");
                out.append(name.as_str());
                out.append(") -> Result<Self, Self::Error> { ");
                out.append(walk.as_str());
                out.append(" } } ");
                proof {
                    assert(out@ =~= before + downcast_text(name@, sub_name@, walk@, smodel_path@));
                }
            } else {
                assert(out@ =~= before + Seq::<char>::empty());
            }
            j += 1;
        }
        out
    }

    /// Matches a contravariant type. `base` is the record of level
    /// `smtype_index`; `root_pointer` is the root pointer.
    fn match_contravariant(
        &self,
        asc_smtype_list: &Vec<Symbol>,
        smtype_index: usize,
        base: &str,
        root_pointer: &str,
        smodel_path: &str,
        f: &LmtFactory,
    ) -> (r: String)
        requires
            smtype_index < asc_smtype_list@.len(),
            forall|i: int|
                0 <= i < asc_smtype_list@.len() ==> (#[trigger] asc_smtype_list@[i]).0 < f.slots().len(),
        ensures
            r@ == match_contravariant_text(
                f.names_of(asc_smtype_list@),
                smtype_index as int,
                base@,
                root_pointer@,
                smodel_path@,
            ),
        decreases asc_smtype_list@.len() - smtype_index,
    {
        let mut out = String::new();
        if smtype_index >= asc_smtype_list.len() - 1 {
            let layers = Symbol::create_layers_over_weak_root(root_pointer, asc_smtype_list.as_slice(), f);
            out.append("Ok(");
            out.append(layers.as_str());
            out.append(")");
            return out;
        }
        let inherited = asc_smtype_list[smtype_index].name(f);
        let smtype = asc_smtype_list[smtype_index + 1].name(f);
        let inner = self.match_contravariant(asc_smtype_list, smtype_index + 1, "_o", root_pointer, smodel_path, f);
        out.append("if let __data__::__variant_");
        out.append(inherited.as_str());
        out.append("::__data_");
        out.append(smtype.as_str());
        out.append("(_o) = &");
        out.append(base);
        out.append(".__variant { ");
        out.append(inner.as_str());
        out.append(" } else { Err(");
        out.append(smodel_path);
        out.append("::SModelError::Contravariant) }");
        out
    }

    /// An ancestor has a smaller slot index than its descendant.
    proof fn lemma_ancestor_index_below(&self, f: &LmtFactory, a: Symbol, s: Symbol)
        requires
            f.wf(),
            f.is_type(s),
            f.is_strict_ancestor(a, s),
        ensures
            a.0 < s.0,
        decreases s.0,
    {
        assert(f.type_wf(s.0 as int));
        match f.parent(s) {
            Some(p) => {
                assert(f.chain(s).drop_last() =~= f.chain(p));
                if a != p {
                    lemma_asc_depth(f, p);
                    let k = choose|k: int| 0 <= k < f.chain(p).len() && f.chain(p)[k] == a;
                    crate::symbol::lemma_asc_chain_shape(f, p);
                    assert(k != f.chain(p).len() - 1);
                    assert(f.chain(p).drop_last() =~= f.chain(p).subrange(0, f.chain(p).len() - 1));
                    assert(f.chain(p).drop_last()[k] == a);
                    self.lemma_ancestor_index_below(f, a, p);
                }
            },
            None => {
                assert(f.chain(s).drop_last() =~= Seq::<Symbol>::empty());
            },
        }
    }

    proof fn lemma_no_downcasts_below(&self, f: &LmtFactory, t: Symbol, j: int, path: Seq<char>)
        requires
            f.wf(),
            0 <= j <= t.0 + 1,
        ensures
            f.downcasts_text(t, j, path) == Seq::<char>::empty(),
        decreases j,
    {
        if j > 0 {
            self.lemma_no_downcasts_below(f, t, j - 1, path);
            let s = Symbol((j - 1) as usize);
            if f.is_type(s) && f.is_strict_ancestor(t, s) {
                self.lemma_ancestor_index_below(f, t, s);
            }
        }
    }
}

/// The chain of a type is one longer than its depth.
pub proof fn lemma_asc_depth(f: &LmtFactory, t: Symbol)
    requires
        f.wf(),
        f.is_type(t),
    ensures
        f.chain(t).len() == f.depth(t) + 1,
{
    crate::symbol::lemma_asc_chain_shape(f, t);
}

} // verus!
