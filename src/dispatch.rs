use crate::args::{argument_names, arguments_text, inputs_text, push_inputs, push_type_params, type_params_text};
use crate::handle::{attrs_text, push_attributes};
use crate::host::SModelHost;
use crate::methods::{push_result, result_text};
use crate::symbol::{LmtFactory, Symbol};
use crate::tree::SmTypeMethod;
use vstd::prelude::*;

verus! {

/// The branch taken for a subtype whose trie node has nested cascade
/// `inner` and code `code`: the nested tests first, then the subtype's own
/// override when none of them matched.
pub open spec fn branch_text(inner: Seq<char>, code: Option<Seq<char>>) -> Seq<char> {
    if inner.len() == 0 {
        match code {
            Some(c) => c,
            None => Seq::empty(),
        }
    } else {
        match code {
            Some(c) => inner + "else { "@ + c + " } "@,
            None => inner,
        }
    }
}

/// The cascade of runtime type tests for the first `k` children of trie
/// node `n`: one `if self.is::<X>()` per child subtype `X`, chained by
/// `else`, each holding the cascade of that child's node.
pub open spec fn dispatch_text(f: &LmtFactory, n: int, k: nat) -> Seq<char>
    decreases f.nodes().len() - n, k,
{
    if k == 0 || n < 0 || n >= f.nodes().len() || k > f.nodes()[n].children().len() {
        Seq::empty()
    } else {
        let e = f.nodes()[n].children().entries()[k - 1];
        let c = e.1 as int;
        let inner = if n < c < f.nodes().len() {
            dispatch_text(f, c, f.nodes()[c].children().len())
        } else {
            Seq::empty()
        };
        let code = if n < c < f.nodes().len() {
            f.nodes()[c].code()
        } else {
            None
        };
        dispatch_text(f, n, (k - 1) as nat) + if k > 1 {
            "else "@
        } else {
            Seq::empty()
        } + "if self.is::<"@ + f.name_of(e.0) + ">() { "@ + branch_text(inner, code) + " } "@
    }
}

/// The dispatching method: the cascade over the method's override trie,
/// then the call to the declared implementation.
pub open spec fn dispatch_method_text(
    attrs: Seq<char>,
    vis: Seq<char>,
    name: Seq<char>,
    tp: Seq<char>,
    inputs: Seq<char>,
    result: Seq<char>,
    where_clause: Seq<char>,
    cascade: Seq<char>,
    args: Seq<char>,
) -> Seq<char> {
    attrs + vis + " fn "@ + name + tp + "(&self, "@ + inputs + ") "@ + result + " "@ + where_clause
        + " { "@ + cascade + "self.__nd_"@ + name + "("@ + args + ") } "@
}

/// The dispatch pass.
pub struct ProcessingStep4_1();

impl ProcessingStep4_1 {
    /// Adds to the methods of `smtype` the dispatching method of instance
    /// method `node`, whose slot is `slot`; a method without slot (one
    /// without receiver) is skipped.
    pub fn exec(&self, host: &mut SModelHost, node: &SmTypeMethod, smtype: Symbol, slot: Option<Symbol>)
        requires
            old(host).wf(),
            old(host).factory.is_type(smtype),
            node.inputs@.len() > 0,
            slot matches Some(s) ==> old(host).factory.is_method(s),
        ensures
            final(host).wf(),
            final(host).factory.extends(&old(host).factory),
            final(host).factory.nodes() == old(host).factory.nodes(),
            final(host).smtype_slots == old(host).smtype_slots,
            final(host).type_symbols == old(host).type_symbols,
            final(host).method_symbols == old(host).method_symbols,
            final(host).output == old(host).output,
            final(host).data_output == old(host).data_output,
            final(host).diagnostics == old(host).diagnostics,
            slot is None ==> final(host).factory == old(host).factory,
            slot matches Some(s) ==> {
                let f = old(host).factory;
                let root = f.method_slot(s).override_root as int;
                final(host).factory.type_slot(smtype).method_output@ == f.type_slot(smtype).method_output@
                    + dispatch_method_text(
                    attrs_text(node.attributes@),
                    node.visibility@,
                    node.name@,
                    type_params_text(node.generics),
                    inputs_text(node.inputs@.drop_first()),
                    result_text(node.result_type),
                    node.generics.where_clause@,
                    dispatch_text(&f, root, f.nodes()[root].children().len()),
                    arguments_text(node.inputs@.drop_first()),
                )
            },
    {
        let slot = match slot {
            Some(s) => s,
            None => {
                return;
            },
        };
        assert(host.factory.method_wf(slot.0 as int));
        let root = slot.override_root(&host.factory);
        let dynamic_dispatch = self.generate_dynamic_dispatch(&host.factory, root);
        let mut out = String::new();
        push_attributes(&mut out, &node.attributes);
        out.append(node.visibility.as_str());
        out.append(" fn ");
        out.append(node.name.as_str());
        push_type_params(&mut out, &node.generics);
        out.append("(&self, ");
        push_inputs(&mut out, node.inputs.as_slice(), 1);
        out.append(") ");
        push_result(&mut out, &node.result_type);
        out.append(" ");
        out.append(node.generics.where_clause.as_str());
        out.append(" { ");
        out.append(dynamic_dispatch.as_str());
        out.append("self.__nd_");
        out.append(node.name.as_str());
        out.append("(");
        let input_args = argument_names(node.inputs.as_slice(), 1);
        out.append(input_args.as_str());
        out.append(") } ");
        proof {
            assert(node.inputs@.subrange(1, node.inputs@.len() as int) =~= node.inputs@.drop_first());
        }
        let ghost h0 = *host;
        host.factory.append_method_output(smtype, out.as_str());
        proof {
            crate::layout::lemma_extends_keeps_host(&h0, host);
        }
    }

    /// The cascade of runtime type tests over the children of trie node
    /// `n`, most derived subtypes tested inside their ancestors' branches.
    pub fn generate_dynamic_dispatch(&self, f: &LmtFactory, n: usize) -> (r: String)
        requires
            f.wf(),
            n < f.nodes().len(),
        ensures
            r@ == dispatch_text(f, n as int, f.nodes()[n as int].children().len()),
        decreases f.nodes().len() - n,
    {
        assert(f.node_wf(n as int));
        let mapping = f.override_node(n).override_logic_mapping();
        let entries = mapping.borrow();
        let mut out = String::new();
        let mut k: usize = 0;
        while k < entries.len()
            invariant
                f.wf(),
                n < f.nodes().len(),
                *mapping == f.nodes()[n as int].children(),
                entries@ == mapping.entries(),
                k <= entries@.len(),
                out@ == dispatch_text(f, n as int, k as nat),
            decreases entries@.len() - k,
        {
            let (subtype, child) = &entries[k];
            proof {
                assert(f.node_wf(n as int));
                crate::shared_map::lemma_value_at(mapping, k as int);
                assert(mapping.keys()[k as int] == subtype@);
                assert(mapping.has_key(subtype@));
            }
            let subtype_name = subtype.name(f);
            if k > 0 {
                out.append("else ");
            }
            let child_node = f.override_node(*child);
            let d1 = self.generate_dynamic_dispatch(f, *child);
            let code = child_node.override_code();
            let mut branch = String::new();
            if d1.as_str().unicode_len() == 0 {
                match code {
                    Some(c) => branch.append(c.as_str()),
                    None => {},
                }
            } else {
                branch.append(d1.as_str());
                match code {
                    Some(c) => {
                        branch.append("else { ");
                        branch.append(c.as_str());
                        branch.append(" } ");
                    },
                    None => {},
                }
            }
            out.append("if self.is::<");
            out.append(subtype_name.as_str());
            out.append(">() { ");
            out.append(branch.as_str());
            out.append(" } ");
            proof {
                let inner = dispatch_text(f, *child as int, f.nodes()[*child as int].children().len());
                let cd = f.nodes()[*child as int].code();
                assert(branch@ =~= branch_text(inner, cd));
            }
            k += 1;
        }
        out
    }
}

} // verus!

verus! {

/// What the cascade over the first `k` children of trie node `n` does on
/// an instance whose chain is `dc`, testing `self.is::<X>()` as membership
/// of `X` in `dc`: `None` when no tested subtype matches; otherwise, for the
/// first that does, `Some(Some(x))` when the override registered for `x`
/// returns, or `Some(None)` when the branch falls through to the declared
/// implementation.
pub open spec fn eval_entries(f: &LmtFactory, n: int, k: nat, dc: Seq<Symbol>) -> Option<Option<Symbol>>
    decreases f.nodes().len() - n, k,
{
    if k == 0 || n < 0 || n >= f.nodes().len() || k > f.nodes()[n].children().len() {
        None
    } else {
        let prev = eval_entries(f, n, (k - 1) as nat, dc);
        if prev is Some {
            prev
        } else {
            let e = f.nodes()[n].children().entries()[k - 1];
            let c = e.1 as int;
            if dc.contains(e.0) {
                if n < c < f.nodes().len() {
                    Some(
                        match eval_entries(f, c, f.nodes()[c].children().len(), dc) {
                            Some(r) => r,
                            None => if f.nodes()[c].code() is Some {
                                Some(e.0)
                            } else {
                                None
                            },
                        },
                    )
                } else {
                    Some(None)
                }
            } else {
                None
            }
        }
    }
}

/// The whole cascade of node `n`: the override that returns, or `None`
/// when the declared implementation runs.
pub open spec fn eval_dispatch(f: &LmtFactory, n: int, dc: Seq<Symbol>) -> Option<Symbol> {
    match eval_entries(f, n, f.nodes()[n].children().len(), dc) {
        Some(r) => r,
        None => None,
    }
}

/// Each node of the trie below `root` tests subtypes of one depth: `d` at
/// the root, one more at each level down.
pub open spec fn trie_levels_ok(f: &LmtFactory, root: int, d: int) -> bool {
    forall|p: Seq<Symbol>, j: int|
        #[trigger] f.trie_walk(root, p) is Some && 0 <= j < f.nodes()[f.trie_walk(root, p)->0].children().len()
            ==> f.depth(#[trigger] f.nodes()[f.trie_walk(root, p)->0].children().entries()[j].0) == d + p.len()
}

/// Two types of one chain with the same depth are the same type.
proof fn lemma_chain_depth_unique(f: &LmtFactory, t: Symbol, x: Symbol)
    requires
        f.wf(),
        f.is_type(t),
        f.chain(t).contains(x),
    ensures
        x == f.chain(t)[f.depth(x) as int],
        f.depth(x) <= f.depth(t),
{
    crate::symbol::lemma_asc_chain_shape(f, t);
    let k = choose|k: int| 0 <= k < f.chain(t).len() && f.chain(t)[k] == x;
    crate::runtime::lemma_chain_prefix(f, t, k);
    crate::symbol::lemma_asc_chain_shape(f, x);
}

/// A cascade whose tested subtypes before position `k` all lie outside the
/// chain matches none of them.
proof fn lemma_eval_none_before(f: &LmtFactory, n: int, k: nat, dc: Seq<Symbol>)
    requires
        0 <= n < f.nodes().len(),
        k <= f.nodes()[n].children().len(),
        forall|j: int| 0 <= j < k ==> !dc.contains(#[trigger] f.nodes()[n].children().entries()[j].0),
    ensures
        eval_entries(f, n, k, dc) is None,
    decreases k,
{
    if k > 0 {
        lemma_eval_none_before(f, n, (k - 1) as nat, dc);
    }
}

/// Once a cascade has matched, later tests change nothing.
proof fn lemma_eval_first_match_stays(f: &LmtFactory, n: int, k: nat, m: nat, dc: Seq<Symbol>)
    requires
        0 <= n < f.nodes().len(),
        k <= m <= f.nodes()[n].children().len(),
        eval_entries(f, n, k, dc) is Some,
    ensures
        eval_entries(f, n, m, dc) == eval_entries(f, n, k, dc),
    decreases m - k,
{
    if m > k {
        lemma_eval_first_match_stays(f, n, k, (m - 1) as nat, dc);
    }
}

/// The node reached after `i` steps of the override path of `d` tests the
/// type of step `i` at some position `j0`, and no subtype it tests before
/// lies in the chain of `d`.
#[verifier::spinoff_prover]
proof fn lemma_node_on_path(f: &LmtFactory, root: int, base: Symbol, d: Symbol, i: int) -> (j0: int)
    requires
        f.wf(),
        f.is_type(d),
        f.is_strict_ancestor(base, d),
        0 <= root < f.nodes().len(),
        trie_levels_ok(f, root, f.depth(base) + 1 as int),
        f.trie_walk(root, crate::methods::override_path(f, base, d)) is Some,
        0 <= i < crate::methods::override_path(f, base, d).len(),
    ensures
        ({
            let path = crate::methods::override_path(f, base, d);
            let pre = path.subrange(0, i);
            let n = f.trie_walk(root, pre)->0;
            let ch = f.nodes()[n].children();
            &&& f.trie_walk(root, pre) is Some
            &&& 0 <= n < f.nodes().len()
            &&& 0 <= j0 < ch.len()
            &&& ch.entries()[j0].0 == path[i]
            &&& f.chain(d).contains(path[i])
            &&& n < ch.entries()[j0].1 < f.nodes().len()
            &&& f.trie_walk(root, path.subrange(0, i + 1)) == Some(ch.entries()[j0].1 as int)
            &&& forall|j: int| 0 <= j < j0 ==> !f.chain(d).contains(#[trigger] ch.entries()[j].0)
        }),
{
    let path = crate::methods::override_path(f, base, d);
    let dc = f.chain(d);
    crate::runtime::lemma_ancestor_position(f, d, base);
    crate::symbol::lemma_asc_chain_shape(f, d);
    let db = f.depth(base) as int;
    lemma_walk_prefix(f, root, path, i + 1);
    let pre = path.subrange(0, i);
    let key = path[i];
    assert(path.subrange(0, i + 1) =~= pre.push(key));
    lemma_walk_step(f, root, pre, key);
    let n = f.trie_walk(root, pre)->0;
    crate::symbol::lemma_trie_walk_bounds(f, root, pre);
    assert(f.node_wf(n));
    let ch = f.nodes()[n].children();
    let j0 = ch.index_of(key@);
    crate::shared_map::lemma_value_at(&ch, j0);
    crate::symbol::lemma_trie_walk_extend(f, root, pre, key);
    assert(dc[db + 1 + i] == key);
    assert(dc.contains(key));
    crate::runtime::lemma_chain_position_depth(f, d, db + 1 + i);
    assert forall|j: int| 0 <= j < j0 implies !dc.contains(#[trigger] ch.entries()[j].0) by {
        let x = ch.entries()[j].0;
        assert(f.depth(x) == db + 1 + pre.len());
        if dc.contains(x) {
            lemma_chain_depth_unique(f, d, x);
            crate::shared_map::lemma_value_at(&ch, j);
            assert(ch.keys()[j] == ch.keys()[j0]);
        }
    }
    j0
}

/// The node at the end of the override path of `d` tests only subtypes
/// deeper than `d`.
#[verifier::spinoff_prover]
proof fn lemma_leaf_matches_nothing(f: &LmtFactory, root: int, base: Symbol, d: Symbol)
    requires
        f.wf(),
        f.is_type(d),
        f.is_strict_ancestor(base, d),
        0 <= root < f.nodes().len(),
        trie_levels_ok(f, root, f.depth(base) + 1 as int),
        f.trie_walk(root, crate::methods::override_path(f, base, d)) is Some,
    ensures
        ({
            let c = f.trie_walk(root, crate::methods::override_path(f, base, d))->0;
            &&& 0 <= c < f.nodes().len()
            &&& eval_entries(f, c, f.nodes()[c].children().len(), f.chain(d)) is None
        }),
{
    let path = crate::methods::override_path(f, base, d);
    let dc = f.chain(d);
    crate::runtime::lemma_ancestor_position(f, d, base);
    crate::symbol::lemma_asc_chain_shape(f, d);
    crate::symbol::lemma_trie_walk_bounds(f, root, path);
    let c = f.trie_walk(root, path)->0;
    let db = f.depth(base) as int;
    assert forall|j: int| 0 <= j < f.nodes()[c].children().len() implies !dc.contains(#[trigger] f.nodes()[c].children().entries()[j].0) by {
        let x = f.nodes()[c].children().entries()[j].0;
        assert(f.depth(x) == db + 1 + path.len());
        if dc.contains(x) {
            lemma_chain_depth_unique(f, d, x);
        }
    }
    lemma_eval_none_before(f, c, f.nodes()[c].children().len(), dc);
}

/// Along the override path of `d` below `base`, the cascade of the node
/// reached after `i` steps picks the override of `d`.
proof fn lemma_eval_along_path(f: &LmtFactory, root: int, base: Symbol, d: Symbol, i: int)
    requires
        f.wf(),
        f.is_type(d),
        f.is_strict_ancestor(base, d),
        0 <= root < f.nodes().len(),
        trie_levels_ok(f, root, f.depth(base) + 1 as int),
        f.trie_walk(root, crate::methods::override_path(f, base, d)) is Some,
        f.nodes()[f.trie_walk(root, crate::methods::override_path(f, base, d))->0].code() is Some,
        0 <= i < crate::methods::override_path(f, base, d).len(),
    ensures
        ({
            let path = crate::methods::override_path(f, base, d);
            let n = f.trie_walk(root, path.subrange(0, i))->0;
            &&& f.trie_walk(root, path.subrange(0, i)) is Some
            &&& eval_entries(f, n, f.nodes()[n].children().len(), f.chain(d)) == Some(Some(d))
        }),
    decreases crate::methods::override_path(f, base, d).len() - i,
{
    let path = crate::methods::override_path(f, base, d);
    let dc = f.chain(d);
    let j0 = lemma_node_on_path(f, root, base, d, i);
    let pre = path.subrange(0, i);
    let n = f.trie_walk(root, pre)->0;
    let ch = f.nodes()[n].children();
    let c = ch.entries()[j0].1 as int;
    lemma_eval_none_before(f, n, j0 as nat, dc);
    if i + 1 < path.len() {
        lemma_eval_along_path(f, root, base, d, i + 1);
    } else {
        assert(path.subrange(0, i + 1) =~= path);
        lemma_leaf_matches_nothing(f, root, base, d);
        crate::runtime::lemma_ancestor_position(f, d, base);
        crate::symbol::lemma_asc_chain_shape(f, d);
        assert(path[i] == d);
    }
    assert(eval_entries(f, n, (j0 + 1) as nat, dc) == Some(Some(d)));
    lemma_eval_first_match_stays(f, n, (j0 + 1) as nat, ch.len(), dc);
}

/// The chain of an ancestor-or-self `x` of `d` is the start of the chain
/// of `d`.
proof fn lemma_prefix_of_chain(f: &LmtFactory, x: Symbol, d: Symbol)
    requires
        f.wf(),
        f.is_type(d),
        f.chain(d).contains(x),
    ensures
        f.depth(x) < f.chain(d).len(),
        f.chain(x) == f.chain(d).subrange(0, f.depth(x) + 1 as int),
{
    crate::symbol::lemma_asc_chain_shape(f, d);
    let k = choose|k: int| 0 <= k < f.chain(d).len() && f.chain(d)[k] == x;
    crate::runtime::lemma_chain_prefix(f, d, k);
    crate::runtime::lemma_chain_position_depth(f, d, k);
}

/// The node reached after `i` steps of the override path of `d` tests the
/// type of step `i` at some position `j0`, and no subtype it tests before
/// lies in the chain of `d`.
#[verifier::spinoff_prover]
proof fn lemma_node_on_path_of(f: &LmtFactory, root: int, base: Symbol, x: Symbol, d: Symbol, i: int) -> (j0: int)
    requires
        f.wf(),
        f.is_type(d),
        f.is_strict_ancestor(base, x),
        f.is_type(x),
        f.chain(d).contains(x),
        0 <= root < f.nodes().len(),
        trie_levels_ok(f, root, f.depth(base) + 1 as int),
        f.trie_walk(root, crate::methods::override_path(f, base, x)) is Some,
        0 <= i < crate::methods::override_path(f, base, x).len(),
    ensures
        ({
            let path = crate::methods::override_path(f, base, x);
            let pre = path.subrange(0, i);
            let n = f.trie_walk(root, pre)->0;
            let ch = f.nodes()[n].children();
            &&& f.trie_walk(root, pre) is Some
            &&& 0 <= n < f.nodes().len()
            &&& 0 <= j0 < ch.len()
            &&& ch.entries()[j0].0 == path[i]
            &&& f.chain(d).contains(path[i])
            &&& n < ch.entries()[j0].1 < f.nodes().len()
            &&& f.trie_walk(root, path.subrange(0, i + 1)) == Some(ch.entries()[j0].1 as int)
            &&& forall|j: int| 0 <= j < j0 ==> !f.chain(d).contains(#[trigger] ch.entries()[j].0)
        }),
{
    let path = crate::methods::override_path(f, base, x);
    let dc = f.chain(d);
    crate::runtime::lemma_ancestor_position(f, x, base);
    lemma_prefix_of_chain(f, x, d);
    crate::symbol::lemma_asc_chain_shape(f, d);
    let db = f.depth(base) as int;
    lemma_walk_prefix(f, root, path, i + 1);
    let pre = path.subrange(0, i);
    let key = path[i];
    assert(path.subrange(0, i + 1) =~= pre.push(key));
    lemma_walk_step(f, root, pre, key);
    let n = f.trie_walk(root, pre)->0;
    crate::symbol::lemma_trie_walk_bounds(f, root, pre);
    assert(f.node_wf(n));
    let ch = f.nodes()[n].children();
    let j0 = ch.index_of(key@);
    crate::shared_map::lemma_value_at(&ch, j0);
    crate::symbol::lemma_trie_walk_extend(f, root, pre, key);
    assert(f.chain(x)[db + 1 + i] == key);
    assert(dc[db + 1 + i] == key);
    assert(dc.contains(key));
    crate::runtime::lemma_chain_position_depth(f, x, db + 1 + i);
    assert forall|j: int| 0 <= j < j0 implies !dc.contains(#[trigger] ch.entries()[j].0) by {
        let x = ch.entries()[j].0;
        assert(f.depth(x) == db + 1 + pre.len());
        if dc.contains(x) {
            lemma_chain_depth_unique(f, d, x);
            crate::shared_map::lemma_value_at(&ch, j);
            assert(ch.keys()[j] == ch.keys()[j0]);
        }
    }
    j0
}

/// The node at the end of the override path of `d` tests only subtypes
/// deeper than `d`.
#[verifier::spinoff_prover]
proof fn lemma_leaf_matches_nothing_of(f: &LmtFactory, root: int, base: Symbol, x: Symbol, d: Symbol)
    requires
        f.wf(),
        0 <= root < f.nodes().len(),
        f.trie_walk(root, crate::methods::override_path(f, base, x)) is Some,
        forall|k: usize|
            #[trigger] f.nodes()[f.trie_walk(root, crate::methods::override_path(f, base, x))->0].children().has_key(k)
                ==> !f.chain(d).contains(Symbol(k)),
    ensures
        ({
            let c = f.trie_walk(root, crate::methods::override_path(f, base, x))->0;
            &&& 0 <= c < f.nodes().len()
            &&& eval_entries(f, c, f.nodes()[c].children().len(), f.chain(d)) is None
        }),
{
    let path = crate::methods::override_path(f, base, x);
    crate::symbol::lemma_trie_walk_bounds(f, root, path);
    let c = f.trie_walk(root, path)->0;
    let ch = f.nodes()[c].children();
    assert(f.node_wf(c));
    assert forall|j: int| 0 <= j < ch.len() implies !f.chain(d).contains(#[trigger] ch.entries()[j].0) by {
        crate::shared_map::lemma_value_at(&ch, j);
        assert(ch.has_key(ch.keys()[j]));
        assert(ch.entries()[j].0 == Symbol(ch.keys()[j]));
    }
    lemma_eval_none_before(f, c, ch.len(), f.chain(d));
}

/// Along the override path of `d` below `base`, the cascade of the node
/// reached after `i` steps picks the override of `d`.
#[verifier::spinoff_prover]
#[verifier::rlimit(100)]
proof fn lemma_eval_along_path_of(f: &LmtFactory, root: int, base: Symbol, x: Symbol, d: Symbol, i: int)
    requires
        f.wf(),
        f.is_type(d),
        f.is_strict_ancestor(base, x),
        f.is_type(x),
        f.chain(d).contains(x),
        0 <= root < f.nodes().len(),
        trie_levels_ok(f, root, f.depth(base) + 1 as int),
        f.trie_walk(root, crate::methods::override_path(f, base, x)) is Some,
        f.nodes()[f.trie_walk(root, crate::methods::override_path(f, base, x))->0].code() is Some,
        forall|k: usize|
            #[trigger] f.nodes()[f.trie_walk(root, crate::methods::override_path(f, base, x))->0].children().has_key(k)
                ==> !f.chain(d).contains(Symbol(k)),
        0 <= i < crate::methods::override_path(f, base, x).len(),
    ensures
        ({
            let path = crate::methods::override_path(f, base, x);
            let n = f.trie_walk(root, path.subrange(0, i))->0;
            &&& f.trie_walk(root, path.subrange(0, i)) is Some
            &&& eval_entries(f, n, f.nodes()[n].children().len(), f.chain(d)) == Some(Some(x))
        }),
    decreases crate::methods::override_path(f, base, x).len() - i,
{
    let path = crate::methods::override_path(f, base, x);
    let dc = f.chain(d);
    let j0 = lemma_node_on_path_of(f, root, base, x, d, i);
    let pre = path.subrange(0, i);
    let n = f.trie_walk(root, pre)->0;
    let ch = f.nodes()[n].children();
    let c = ch.entries()[j0].1 as int;
    lemma_eval_none_before(f, n, j0 as nat, dc);
    if i + 1 < path.len() {
        lemma_eval_along_path_of(f, root, base, x, d, i + 1);
    } else {
        assert(path.subrange(0, i + 1) =~= path);
        lemma_leaf_matches_nothing_of(f, root, base, x, d);
        crate::runtime::lemma_ancestor_position(f, x, base);
        crate::symbol::lemma_asc_chain_shape(f, x);
        assert(path[i] == x);
    }
    assert(eval_entries(f, n, (j0 + 1) as nat, dc) == Some(Some(x)));
    lemma_eval_first_match_stays(f, n, (j0 + 1) as nat, ch.len(), dc);
}

/// The walk along a prefix of a path that can be walked ends where the
/// walk of that prefix does.
proof fn lemma_walk_prefix(f: &LmtFactory, n: int, path: Seq<Symbol>, i: int)
    requires
        f.trie_walk(n, path) is Some,
        0 <= i <= path.len(),
    ensures
        f.trie_walk(n, path.subrange(0, i)) is Some,
    decreases path.len(),
{
    if i > 0 {
        let c = f.nodes()[n].children().value_of(path[0]@) as int;
        lemma_walk_prefix(f, c, path.drop_first(), i - 1);
        assert(path.subrange(0, i).drop_first() =~= path.drop_first().subrange(0, i - 1));
        assert(path.subrange(0, i)[0] == path[0]);
    }
}

/// The step after a prefix of a walkable path exists.
proof fn lemma_walk_step(f: &LmtFactory, n: int, pre: Seq<Symbol>, key: Symbol)
    requires
        f.trie_walk(n, pre.push(key)) is Some,
    ensures
        f.trie_walk(n, pre) is Some,
        f.nodes()[f.trie_walk(n, pre)->0].children().has_key(key@),
    decreases pre.len(),
{
    if pre.len() > 0 {
        let c = f.nodes()[n].children().value_of(pre[0]@) as int;
        assert(pre.push(key).drop_first() =~= pre.drop_first().push(key));
        assert(pre.push(key)[0] == pre[0]);
        lemma_walk_step(f, c, pre.drop_first(), key);
    } else {
        assert(pre.push(key).drop_first() =~= Seq::<Symbol>::empty());
        assert(pre.push(key)[0] == key);
    }
}

/// The cascade of a trie whose subtypes at each level have one depth picks
/// the override registered along the path of `d`.
proof fn lemma_dispatch_picks_own_override(f: &LmtFactory, root: int, base: Symbol, d: Symbol)
    requires
        f.wf(),
        f.is_type(d),
        f.is_strict_ancestor(base, d),
        0 <= root < f.nodes().len(),
        trie_levels_ok(f, root, f.depth(base) + 1 as int),
        f.trie_walk(root, crate::methods::override_path(f, base, d)) is Some,
        f.nodes()[f.trie_walk(root, crate::methods::override_path(f, base, d))->0].code() is Some,
    ensures
        eval_dispatch(f, root, f.chain(d)) == Some(d),
{
    crate::runtime::lemma_ancestor_position(f, d, base);
    crate::symbol::lemma_asc_chain_shape(f, d);
    let path = crate::methods::override_path(f, base, d);
    assert(path.len() > 0);
    lemma_eval_along_path(f, root, base, d, 0);
    assert(path.subrange(0, 0) =~= Seq::<Symbol>::empty());
}

/// A walk of `p.len()` steps ends at a node one level deeper per step.
proof fn lemma_walk_level(f: &LmtFactory, n: int, p: Seq<Symbol>)
    requires
        f.wf(),
        0 <= n < f.nodes().len(),
        f.trie_walk(n, p) is Some,
    ensures
        f.node_levels()[f.trie_walk(n, p)->0] == f.node_levels()[n] + p.len(),
    decreases p.len(),
{
    if p.len() > 0 {
        assert(f.node_wf(n));
        let c = f.nodes()[n].children().value_of(p[0]@) as int;
        lemma_walk_level(f, c, p.drop_first());
    }
}

/// In a well-formed factory every trie tests subtypes of one depth per
/// level, the depth recorded for its root first.
proof fn lemma_levels_ok(f: &LmtFactory, root: int)
    requires
        f.wf(),
        0 <= root < f.nodes().len(),
    ensures
        trie_levels_ok(f, root, f.node_levels()[root] as int),
{
    assert forall|p: Seq<Symbol>, j: int|
        #[trigger] f.trie_walk(root, p) is Some && 0 <= j < f.nodes()[f.trie_walk(root, p)->0].children().len()
            implies f.depth(#[trigger] f.nodes()[f.trie_walk(root, p)->0].children().entries()[j].0)
            == f.node_levels()[root] + p.len() by {
        lemma_walk_level(f, root, p);
        crate::symbol::lemma_trie_walk_bounds(f, root, p);
        let w = f.trie_walk(root, p)->0;
        assert(f.node_wf(w));
        let ch = f.nodes()[w].children();
        crate::shared_map::lemma_value_at(&ch, j);
        assert(ch.has_key(ch.keys()[j]));
    }
}

/// A virtual call on an instance whose most derived type `d` overrides
/// method `m` runs `d`'s override, whatever the static type of the handle
/// the call is made through: the cascade of `m`'s trie, once `d`'s
/// override is registered there (as the method pass does for an
/// `override` of `d`), picks it for any instance whose chain is that of
/// `d`.
pub proof fn lemma_virtual_call_runs_most_derived_override(f: &LmtFactory, m: Symbol, d: Symbol)
    requires
        f.wf(),
        f.is_method(m),
        f.is_type(d),
        f.is_strict_ancestor(f.method_slot(m).defined_in, d),
        f.trie_walk(
            f.method_slot(m).override_root as int,
            crate::methods::override_path(f, f.method_slot(m).defined_in, d),
        ) is Some,
        f.nodes()[f.trie_walk(
            f.method_slot(m).override_root as int,
            crate::methods::override_path(f, f.method_slot(m).defined_in, d),
        )->0].code() is Some,
    ensures
        eval_dispatch(f, f.method_slot(m).override_root as int, f.chain(d)) == Some(d),
{
    assert(f.method_wf(m.0 as int));
    let root = f.method_slot(m).override_root as int;
    lemma_levels_ok(f, root);
    lemma_dispatch_picks_own_override(f, root, f.method_slot(m).defined_in, d);
}

/// A virtual call of method `m` on an instance of type `d` runs the
/// override of `x`, the most derived type in the chain of `d` whose
/// override of `m` is registered in `m`'s trie: `x` is `d` or one of its
/// ancestors below the declaring type, and nothing further down the chain
/// of `d` is registered under `x`. This holds whatever the static type of
/// the handle the call is made through.
pub proof fn lemma_virtual_call_runs_nearest_override(f: &LmtFactory, m: Symbol, x: Symbol, d: Symbol)
    requires
        f.wf(),
        f.is_method(m),
        f.is_type(x),
        f.is_type(d),
        f.chain(d).contains(x),
        f.is_strict_ancestor(f.method_slot(m).defined_in, x),
        f.trie_walk(
            f.method_slot(m).override_root as int,
            crate::methods::override_path(f, f.method_slot(m).defined_in, x),
        ) is Some,
        f.nodes()[f.trie_walk(
            f.method_slot(m).override_root as int,
            crate::methods::override_path(f, f.method_slot(m).defined_in, x),
        )->0].code() is Some,
        forall|k: usize|
            #[trigger] f.nodes()[f.trie_walk(
                f.method_slot(m).override_root as int,
                crate::methods::override_path(f, f.method_slot(m).defined_in, x),
            )->0].children().has_key(k) ==> !f.chain(d).contains(Symbol(k)),
    ensures
        eval_dispatch(f, f.method_slot(m).override_root as int, f.chain(d)) == Some(x),
{
    assert(f.method_wf(m.0 as int));
    let root = f.method_slot(m).override_root as int;
    let base = f.method_slot(m).defined_in;
    lemma_levels_ok(f, root);
    crate::runtime::lemma_ancestor_position(f, x, base);
    crate::symbol::lemma_asc_chain_shape(f, x);
    let path = crate::methods::override_path(f, base, x);
    assert(path.len() > 0);
    lemma_eval_along_path_of(f, root, base, x, d, 0);
    assert(path.subrange(0, 0) =~= Seq::<Symbol>::empty());
}

} // verus!
