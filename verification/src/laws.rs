//! The library's cross-cutting guarantees, stated and proved over the
//! spec-level pipeline: the balance of the lexer's structural tokens is
//! proved beside the lexer itself
//! ([`crate::tokenizer::lemma_tokens_balanced`]); here stand the laws
//! that relate the parser and the resolver to the trees they produce.

use vstd::prelude::*;

use crate::ast::{
    at_most_one_initial, contains_id, unique_ids, wf_state, StateModel, TransModel,
};
use crate::diag::ErrModel;
use crate::parser::{
    at_most_one_initial_p, find_sibling_from, marked_initial, push_on, source_stub, spec_body,
    spec_document, spec_parse, spec_state, spec_trans, strip, strip_all, lemma_strip_all, PState,
};
use crate::tokenizer::SpanModel;
use crate::resolver::{
    append_stubs, apply_kids, apply_node, erase_kids, erase_node, erase_on, erase_trans,
    is_qualified, resolve_kids, resolve_node, resolve_on, resolve_qualified, resolve_target,
    root_stubs, search_chain, split_dots, spec_resolve, stub_state, stubs_kids, stubs_node,
    stubs_on, ChainEntry, StubReq,
};

verus! {

// ---------------------------------------------------------------------
// Qualified path bypasses scope search.
// ---------------------------------------------------------------------
/// A target beginning with `#` is resolved by exact path match from the
/// root alone: the transition's lexical position — the scope chain — has
/// no bearing on the outcome, and a successful resolution is exactly
/// the written path's segments.
pub proof fn lemma_qualified_bypasses_scope(
    root: StateModel,
    c1: Seq<ChainEntry>,
    c2: Seq<ChainEntry>,
    target: Seq<char>,
)
    requires
        is_qualified(target),
    ensures
        resolve_target(root, c1, target) == resolve_target(root, c2, target),
        resolve_target(root, c1, target) matches Ok(p) ==> p == split_dots(target.drop_first()),
{
}

// ---------------------------------------------------------------------
// Idempotent resolution: groundwork on clean trees.
// ---------------------------------------------------------------------
/// No transition in the list carries a resolved path yet.
pub open spec fn clean_on(on: Seq<TransModel>) -> bool {
    forall|i: int| 0 <= i < on.len() ==> (#[trigger] on[i]).resolved is None
}

/// No transition anywhere in the tree carries a resolved path yet.
pub open spec fn clean(n: StateModel) -> bool
    decreases n,
{
    &&& clean_on(n.on)
    &&& (forall|i: int| 0 <= i < n.states.len() ==> clean(#[trigger] n.states[i]))
}

/// `erase_on` lists the erased transitions pointwise.
proof fn lemma_erase_on_shape(on: Seq<TransModel>, i: int)
    requires
        0 <= i <= on.len(),
    ensures
        erase_on(on, i).len() == on.len() - i,
        forall|j: int| 0 <= j < on.len() - i ==> erase_on(on, i)[j] == erase_trans(on[i + j]),
    decreases on.len() - i,
{
    if i < on.len() {
        lemma_erase_on_shape(on, i + 1);
    }
}

/// `erase_kids` lists the erased children pointwise.
proof fn lemma_erase_kids_shape(kids: Seq<StateModel>, i: int)
    requires
        0 <= i <= kids.len(),
    ensures
        erase_kids(kids, i).len() == kids.len() - i,
        forall|j: int| 0 <= j < kids.len() - i ==> erase_kids(kids, i)[j] == erase_node(
            kids[i + j],
        ),
    decreases kids.len() - i,
{
    if i < kids.len() {
        lemma_erase_kids_shape(kids, i + 1);
    }
}

/// Erasing leaves a clean tree.
proof fn lemma_erase_clean(n: StateModel)
    ensures
        clean(erase_node(n)),
    decreases n,
{
    lemma_erase_on_shape(n.on, 0);
    lemma_erase_kids_shape(n.states, 0);
    assert forall|i: int| 0 <= i < erase_node(n).states.len() implies clean(
        #[trigger] erase_node(n).states[i],
    ) by {
        lemma_erase_clean(n.states[i]);
    }
}

/// Erasing a clean tree changes nothing.
proof fn lemma_erase_clean_id(n: StateModel)
    requires
        clean(n),
    ensures
        erase_node(n) == n,
    decreases n,
{
    lemma_erase_on_shape(n.on, 0);
    lemma_erase_kids_shape(n.states, 0);
    assert(erase_on(n.on, 0) =~= n.on);
    assert forall|i: int| 0 <= i < n.states.len() implies erase_kids(n.states, 0)[i] == n.states[i] by {
        lemma_erase_clean_id(n.states[i]);
    }
    assert(erase_kids(n.states, 0) =~= n.states);
}

/// `apply_kids` lists the treated children pointwise.
proof fn lemma_apply_kids_shape(
    kids: Seq<StateModel>,
    i: int,
    ppath: Seq<Seq<char>>,
    reqs: Seq<StubReq>,
)
    requires
        0 <= i <= kids.len(),
    ensures
        apply_kids(kids, i, ppath, reqs).len() == kids.len() - i,
        forall|j: int| 0 <= j < kids.len() - i ==> apply_kids(kids, i, ppath, reqs)[j]
            == apply_node(kids[i + j], ppath.push(kids[i + j].id), reqs),
    decreases kids.len() - i,
{
    if i < kids.len() {
        lemma_apply_kids_shape(kids, i + 1, ppath, reqs);
    }
}

/// Appending stubs keeps a child list clean.
proof fn lemma_append_stubs_clean(
    states: Seq<StateModel>,
    reqs: Seq<StubReq>,
    i: int,
    path: Seq<Seq<char>>,
)
    requires
        0 <= i <= reqs.len(),
        forall|j: int| 0 <= j < states.len() ==> clean(#[trigger] states[j]),
    ensures
        forall|j: int| 0 <= j < append_stubs(states, reqs, i, path).len() ==> clean(
            #[trigger] append_stubs(states, reqs, i, path)[j],
        ),
    decreases reqs.len() - i,
{
    if i < reqs.len() {
        let s2 = if reqs[i].path == path && !crate::ast::contains_id(states, reqs[i].name) {
            states.push(stub_state(reqs[i].name))
        } else {
            states
        };
        assert forall|j: int| 0 <= j < s2.len() implies clean(#[trigger] s2[j]) by {
            if j == states.len() {
                assert(s2[j] == stub_state(reqs[i].name));
            }
        }
        lemma_append_stubs_clean(s2, reqs, i + 1, path);
        assert(append_stubs(states, reqs, i, path) == append_stubs(s2, reqs, i + 1, path));
    }
}

/// Adding stubs keeps a clean tree clean.
proof fn lemma_apply_clean(n: StateModel, path: Seq<Seq<char>>, reqs: Seq<StubReq>)
    requires
        clean(n),
    ensures
        clean(apply_node(n, path, reqs)),
    decreases n,
{
    lemma_apply_kids_shape(n.states, 0, path, reqs);
    let treated = apply_kids(n.states, 0, path, reqs);
    assert forall|j: int| 0 <= j < treated.len() implies clean(#[trigger] treated[j]) by {
        lemma_apply_clean(n.states[j], path.push(n.states[j].id), reqs);
    }
    lemma_append_stubs_clean(treated, reqs, 0, path);
}

/// Applying no stub requests changes nothing.
proof fn lemma_apply_empty(n: StateModel, path: Seq<Seq<char>>)
    ensures
        apply_node(n, path, Seq::empty()) == n,
    decreases n,
{
    lemma_apply_kids_shape(n.states, 0, path, Seq::empty());
    assert forall|j: int| 0 <= j < n.states.len() implies apply_kids(
        n.states,
        0,
        path,
        Seq::<StubReq>::empty(),
    )[j] == n.states[j] by {
        lemma_apply_empty(n.states[j], path.push(n.states[j].id));
    }
    assert(apply_kids(n.states, 0, path, Seq::<StubReq>::empty()) =~= n.states);
    assert(append_stubs(n.states, Seq::empty(), 0, path) == n.states);
}

/// A successful `resolve_on` lists the input transitions pointwise,
/// each with its computed path filled in.
proof fn lemma_resolve_on_shape(
    on: Seq<TransModel>,
    i: int,
    root: StateModel,
    chain: Seq<ChainEntry>,
)
    requires
        0 <= i <= on.len(),
    ensures
        resolve_on(on, i, root, chain) matches Ok(out) ==> {
            &&& out.len() == on.len() - i
            &&& (forall|j: int|
                0 <= j < on.len() - i ==> resolve_target(
                    root,
                    chain,
                    (#[trigger] on[i + j]).target,
                ) is Ok)
            &&& (forall|j: int|
                0 <= j < on.len() - i ==> #[trigger] out[j] == (TransModel {
                    source: on[i + j].source,
                    target: on[i + j].target,
                    resolved: Some(resolve_target(root, chain, on[i + j].target)->Ok_0),
                    cond: on[i + j].cond,
                    action: on[i + j].action,
                }))
        },
    decreases on.len() - i,
{
    if i < on.len() {
        lemma_resolve_on_shape(on, i + 1, root, chain);
        if let Ok(out) = resolve_on(on, i, root, chain) {
            let rest = resolve_on(on, i + 1, root, chain)->Ok_0;
            assert forall|j: int| 0 <= j < on.len() - i implies resolve_target(
                root,
                chain,
                (#[trigger] on[i + j]).target,
            ) is Ok by {
                if j > 0 {
                    assert(on[i + j] == on[(i + 1) + (j - 1)]);
                }
            }
            assert forall|j: int| 0 <= j < on.len() - i implies #[trigger] out[j] == (TransModel {
                source: on[i + j].source,
                target: on[i + j].target,
                resolved: Some(resolve_target(root, chain, on[i + j].target)->Ok_0),
                cond: on[i + j].cond,
                action: on[i + j].action,
            }) by {
                if j > 0 {
                    assert(out[j] == rest[j - 1]);
                    assert(on[i + j] == on[(i + 1) + (j - 1)]);
                }
            }
        }
    }
}

/// A successful `resolve_kids` lists the resolved children pointwise.
proof fn lemma_resolve_kids_shape(
    kids: Seq<StateModel>,
    i: int,
    ppath: Seq<Seq<char>>,
    chain: Seq<ChainEntry>,
    root: StateModel,
)
    requires
        0 <= i <= kids.len(),
    ensures
        resolve_kids(kids, i, ppath, chain, root) matches Ok(out) ==> {
            &&& out.len() == kids.len() - i
            &&& (forall|j: int|
                0 <= j < kids.len() - i ==> resolve_node(
                    #[trigger] kids[i + j],
                    ppath.push(kids[i + j].id),
                    chain,
                    root,
                ) is Ok)
            &&& (forall|j: int|
                0 <= j < kids.len() - i ==> #[trigger] out[j] == resolve_node(
                    kids[i + j],
                    ppath.push(kids[i + j].id),
                    chain,
                    root,
                )->Ok_0)
        },
    decreases kids.len() - i,
{
    if i < kids.len() {
        lemma_resolve_kids_shape(kids, i + 1, ppath, chain, root);
        if let Ok(out) = resolve_kids(kids, i, ppath, chain, root) {
            let rest = resolve_kids(kids, i + 1, ppath, chain, root)->Ok_0;
            assert forall|j: int| 0 <= j < kids.len() - i implies resolve_node(
                #[trigger] kids[i + j],
                ppath.push(kids[i + j].id),
                chain,
                root,
            ) is Ok by {
                if j > 0 {
                    assert(kids[i + j] == kids[(i + 1) + (j - 1)]);
                }
            }
            assert forall|j: int| 0 <= j < kids.len() - i implies #[trigger] out[j]
                == resolve_node(kids[i + j], ppath.push(kids[i + j].id), chain, root)->Ok_0 by {
                if j > 0 {
                    assert(out[j] == rest[j - 1]);
                    assert(kids[i + j] == kids[(i + 1) + (j - 1)]);
                }
            }
        }
    }
}

/// Resolution never changes the tree's skeleton: erasing its output
/// gives back the erased input.
proof fn lemma_resolve_skeleton(
    n: StateModel,
    path: Seq<Seq<char>>,
    chain: Seq<ChainEntry>,
    root: StateModel,
)
    ensures
        resolve_node(n, path, chain, root) matches Ok(m) ==> erase_node(m) == erase_node(n),
    decreases n,
{
    if let Ok(m) = resolve_node(n, path, chain, root) {
        lemma_resolve_on_shape(n.on, 0, root, chain);
        let chain2 = chain.push(ChainEntry { path, states: n.states });
        lemma_resolve_kids_shape(n.states, 0, path, chain2, root);
        lemma_erase_on_shape(n.on, 0);
        lemma_erase_on_shape(m.on, 0);
        lemma_erase_kids_shape(n.states, 0);
        lemma_erase_kids_shape(m.states, 0);
        assert forall|j: int| 0 <= j < n.states.len() implies erase_kids(m.states, 0)[j]
            == erase_kids(n.states, 0)[j] by {
            lemma_resolve_skeleton(n.states[j], path.push(n.states[j].id), chain2, root);
        }
        assert(erase_on(m.on, 0) =~= erase_on(n.on, 0));
        assert(erase_kids(m.states, 0) =~= erase_kids(n.states, 0));
    }
}

/// Every bare target anywhere in the subtree at `n` is found by the
/// scope search, under the same chains the stub collection uses.
pub open spec fn all_found(
    n: StateModel,
    path: Seq<Seq<char>>,
    chain: Seq<ChainEntry>,
    rid: Seq<char>,
) -> bool
    decreases n, 0int,
{
    &&& (forall|i: int|
        0 <= i < n.on.len() ==> (!is_qualified(#[trigger] n.on[i].target) ==> search_chain(
            chain,
            rid,
            n.on[i].target,
        ) is Some))
    &&& all_found_kids(
        n.states,
        0,
        path,
        chain.push(ChainEntry { path, states: n.states }),
        rid,
    )
}

pub open spec fn all_found_kids(
    kids: Seq<StateModel>,
    i: int,
    ppath: Seq<Seq<char>>,
    chain: Seq<ChainEntry>,
    rid: Seq<char>,
) -> bool
    decreases kids, kids.len() - i + 1,
{
    i < 0 || i >= kids.len() || (all_found(kids[i], ppath.push(kids[i].id), chain, rid)
        && all_found_kids(kids, i + 1, ppath, chain, rid))
}

/// A successful resolution finds every bare target.
proof fn lemma_resolved_all_found(
    n: StateModel,
    path: Seq<Seq<char>>,
    chain: Seq<ChainEntry>,
    root: StateModel,
)
    ensures
        resolve_node(n, path, chain, root) is Ok ==> all_found(n, path, chain, root.id),
    decreases n, 0int,
{
    if resolve_node(n, path, chain, root) is Ok {
        lemma_resolve_on_shape(n.on, 0, root, chain);
        let chain2 = chain.push(ChainEntry { path, states: n.states });
        lemma_resolve_kids_shape(n.states, 0, path, chain2, root);
        assert forall|i: int|
            0 <= i < n.on.len() && !is_qualified(#[trigger] n.on[i].target) implies search_chain(
            chain,
            root.id,
            n.on[i].target,
        ) is Some by {
            assert(n.on[0 + i] == n.on[i]);
            assert(resolve_target(root, chain, n.on[i].target) is Ok);
        }
        assert forall|j: int| 0 <= j < n.states.len() implies resolve_node(
            #[trigger] n.states[j],
            path.push(n.states[j].id),
            chain2,
            root,
        ) is Ok by {
            assert(n.states[0 + j] == n.states[j]);
        }
        lemma_resolved_all_found_kids(n.states, 0, path, chain2, root);
    }
}

proof fn lemma_resolved_all_found_kids(
    kids: Seq<StateModel>,
    i: int,
    ppath: Seq<Seq<char>>,
    chain: Seq<ChainEntry>,
    root: StateModel,
)
    requires
        0 <= i <= kids.len(),
        forall|j: int|
            i <= j < kids.len() ==> resolve_node(
                #[trigger] kids[j],
                ppath.push(kids[j].id),
                chain,
                root,
            ) is Ok,
    ensures
        all_found_kids(kids, i, ppath, chain, root.id),
    decreases kids, kids.len() - i + 1,
{
    if i < kids.len() {
        lemma_resolved_all_found(kids[i], ppath.push(kids[i].id), chain, root);
        lemma_resolved_all_found_kids(kids, i + 1, ppath, chain, root);
    }
}

/// Where every bare target is found, no stub is requested.
proof fn lemma_all_found_no_stubs(
    n: StateModel,
    path: Seq<Seq<char>>,
    chain: Seq<ChainEntry>,
    rid: Seq<char>,
)
    requires
        all_found(n, path, chain, rid),
    ensures
        stubs_node(n, path, chain, rid) == Seq::<StubReq>::empty(),
    decreases n, 0int,
{
    lemma_no_stubs_on(n.on, 0, chain, rid);
    let chain2 = chain.push(ChainEntry { path, states: n.states });
    lemma_all_found_no_stubs_kids(n.states, 0, path, chain2, rid);
    assert(stubs_node(n, path, chain, rid) =~= Seq::<StubReq>::empty());
}

proof fn lemma_no_stubs_on(
    on: Seq<TransModel>,
    i: int,
    chain: Seq<ChainEntry>,
    rid: Seq<char>,
)
    requires
        0 <= i <= on.len(),
        forall|j: int|
            0 <= j < on.len() ==> (!is_qualified(#[trigger] on[j].target) ==> search_chain(
                chain,
                rid,
                on[j].target,
            ) is Some),
    ensures
        stubs_on(on, i, chain, rid) == Seq::<StubReq>::empty(),
    decreases on.len() - i,
{
    if i < on.len() {
        lemma_no_stubs_on(on, i + 1, chain, rid);
        assert(stubs_on(on, i, chain, rid) =~= Seq::<StubReq>::empty());
    }
}

proof fn lemma_all_found_no_stubs_kids(
    kids: Seq<StateModel>,
    i: int,
    ppath: Seq<Seq<char>>,
    chain: Seq<ChainEntry>,
    rid: Seq<char>,
)
    requires
        0 <= i <= kids.len(),
        all_found_kids(kids, i, ppath, chain, rid),
    ensures
        stubs_kids(kids, i, ppath, chain, rid) == Seq::<StubReq>::empty(),
    decreases kids, kids.len() - i + 1,
{
    if i < kids.len() {
        lemma_all_found_no_stubs(kids[i], ppath.push(kids[i].id), chain, rid);
        lemma_all_found_no_stubs_kids(kids, i + 1, ppath, chain, rid);
        assert(stubs_kids(kids, i, ppath, chain, rid) =~= Seq::<StubReq>::empty());
    }
}

/// Idempotent resolution: resolving an already-resolved tree is a
/// no-op. Whenever the resolver succeeds, running it again on its own
/// output succeeds and returns that output unchanged.
pub proof fn lemma_resolve_idempotent(t: StateModel)
    ensures
        spec_resolve(t) matches Ok(r) ==> spec_resolve(r) == Ok::<StateModel, ErrModel>(r),
{
    if let Ok(r) = spec_resolve(t) {
        let t0 = erase_node(t);
        let stubs = root_stubs(t0);
        let t2 = apply_node(t0, seq![t0.id], stubs);
        lemma_erase_clean(t);
        lemma_apply_clean(t0, seq![t0.id], stubs);
        lemma_resolve_skeleton(t2, seq![t2.id], Seq::empty(), t2);
        lemma_erase_clean_id(t2);
        assert(erase_node(r) == t2);
        lemma_resolved_all_found(t2, seq![t2.id], Seq::empty(), t2);
        lemma_all_found_no_stubs(t2, seq![t2.id], Seq::empty(), t2.id);
        assert(root_stubs(t2) == Seq::<StubReq>::empty());
        lemma_apply_empty(t2, seq![t2.id]);
        assert(apply_node(t2, seq![t2.id], root_stubs(t2)) == t2);
        assert(spec_resolve(r) == resolve_node(t2, seq![t2.id], Seq::empty(), t2));
    }
}


// ---------------------------------------------------------------------
// Implicit source rule.
// ---------------------------------------------------------------------
/// Every transition's source is the identifier of the state that owns
/// it.
pub open spec fn sources_ok(n: StateModel) -> bool
    decreases n,
{
    &&& (forall|i: int| 0 <= i < n.on.len() ==> (#[trigger] n.on[i]).source == n.id)
    &&& (forall|i: int| 0 <= i < n.states.len() ==> sources_ok(#[trigger] n.states[i]))
}

/// The same, over the position-annotated trees the spec parser builds.
pub open spec fn psources_ok(p: PState) -> bool
    decreases p,
{
    &&& (forall|i: int| 0 <= i < p.on.len() ==> (#[trigger] p.on[i]).source == p.id)
    &&& (forall|i: int| 0 <= i < p.states.len() ==> psources_ok(#[trigger] p.states[i]))
}

proof fn lemma_find_sibling_id(acc: Seq<PState>, id: Seq<char>, i: int)
    requires
        0 <= i <= acc.len(),
    ensures
        find_sibling_from(acc, id, i) matches Some(k) ==> i <= k < acc.len() && acc[k].id == id,
    decreases acc.len() - i,
{
    if i < acc.len() && acc[i].id != id {
        lemma_find_sibling_id(acc, id, i + 1);
    }
}

proof fn lemma_strip_sources(p: PState)
    requires
        psources_ok(p),
    ensures
        sources_ok(strip(p)),
    decreases p,
{
    lemma_strip_all(p.states);
    assert forall|i: int| 0 <= i < strip(p).states.len() implies sources_ok(
        #[trigger] strip(p).states[i],
    ) by {
        assert(strip(p).states[i] == strip(p.states[i]));
        lemma_strip_sources(p.states[i]);
    }
}

proof fn lemma_state_sources(toks: Seq<SpanModel>, pos: int)
    ensures
        spec_state(toks, pos) matches Ok(p) ==> psources_ok(p.1),
    decreases toks.len() - pos, 0int,
{
    if 0 <= pos < toks.len() && toks[pos].tok is Identifier {
        let id = toks[pos].tok->Identifier_0;
        let par = pos + 1 < toks.len() && toks[pos + 1].tok is ParallelState;
        let p1 = pos + 1 + (if par {
            1int
        } else {
            0int
        });
        let fin = p1 < toks.len() && toks[p1].tok is FinalState;
        let p2 = p1 + (if fin {
            1int
        } else {
            0int
        });
        let ini = p2 < toks.len() && toks[p2].tok is InitialState;
        let p3 = p2 + (if ini {
            1int
        } else {
            0int
        });
        if !(par && fin) && p3 < toks.len() && toks[p3].tok is Indent && !fin {
            lemma_body_sources(toks, p3 + 1, id, Seq::empty(), Seq::empty());
        }
    }
}

proof fn lemma_body_sources(
    toks: Seq<SpanModel>,
    pos: int,
    encl: Seq<char>,
    acc: Seq<PState>,
    acc_on: Seq<TransModel>,
)
    requires
        forall|i: int| 0 <= i < acc.len() ==> psources_ok(#[trigger] acc[i]),
        forall|i: int| 0 <= i < acc_on.len() ==> (#[trigger] acc_on[i]).source == encl,
    ensures
        spec_body(toks, pos, encl, acc, acc_on) matches Ok(t3) ==> {
            &&& (forall|i: int| 0 <= i < t3.1.len() ==> psources_ok(#[trigger] t3.1[i]))
            &&& (forall|i: int| 0 <= i < t3.2.len() ==> (#[trigger] t3.2[i]).source == encl)
        },
    decreases toks.len() - pos, 1int,
{
    if 0 <= pos < toks.len() {
        if toks[pos].tok is Dedent {
        } else if toks[pos].tok is TransitionArrow {
            if let Ok((p2, tm)) = spec_trans(toks, pos, encl) {
                if p2 > pos && p2 <= toks.len() {
                    assert forall|i: int| 0 <= i < acc_on.push(tm).len() implies (#[trigger] acc_on.push(
                        tm,
                    )[i]).source == encl by {
                        if i < acc_on.len() {
                            assert(acc_on.push(tm)[i] == acc_on[i]);
                        }
                    }
                    lemma_body_sources(toks, p2, encl, acc, acc_on.push(tm));
                }
            }
        } else if toks[pos].tok is Identifier {
            let x = toks[pos].tok->Identifier_0;
            if pos + 1 < toks.len() && toks[pos + 1].tok is TransitionArrow {
                if let Ok((p2, tm)) = spec_trans(toks, pos + 1, x) {
                    lemma_find_sibling_id(acc, x, 0);
                    match find_sibling_from(acc, x, 0) {
                        Some(i) => {
                            if acc[i].typ != crate::ast::StateType::FinalState && p2 > pos && p2
                                <= toks.len() {
                                let acc2 = acc.update(i, push_on(acc[i], tm));
                                assert forall|j: int| 0 <= j < acc2.len() implies psources_ok(
                                    #[trigger] acc2[j],
                                ) by {
                                    if j == i {
                                        let upd = push_on(acc[i], tm);
                                        assert(psources_ok(acc[i]));
                                        assert forall|k: int| 0 <= k < upd.on.len() implies (
                                        #[trigger] upd.on[k]).source == upd.id by {
                                            if k < acc[i].on.len() {
                                                assert(upd.on[k] == acc[i].on[k]);
                                            }
                                        }
                                    } else {
                                        assert(acc2[j] == acc[j]);
                                    }
                                }
                                lemma_body_sources(toks, p2, encl, acc2, acc_on);
                            }
                        },
                        None => {
                            if p2 > pos && p2 <= toks.len() {
                                let stub = source_stub(pos, x, tm);
                                assert forall|j: int| 0 <= j < acc.push(stub).len() implies psources_ok(
                                    #[trigger] acc.push(stub)[j],
                                ) by {
                                    if j < acc.len() {
                                        assert(acc.push(stub)[j] == acc[j]);
                                    } else {
                                        assert(acc.push(stub)[j] == stub);
                                        assert(stub.on =~= seq![tm]);
                                    }
                                }
                                lemma_body_sources(toks, p2, encl, acc.push(stub), acc_on);
                            }
                        },
                    }
                }
            } else {
                lemma_state_sources(toks, pos);
                if let Ok((p2, child)) = spec_state(toks, pos) {
                    if find_sibling_from(acc, child.id, 0) is None && !(child.is_initial
                        && marked_initial(acc)) && p2 > pos && p2 <= toks.len() {
                        assert forall|j: int| 0 <= j < acc.push(child).len() implies psources_ok(
                            #[trigger] acc.push(child)[j],
                        ) by {
                            if j < acc.len() {
                                assert(acc.push(child)[j] == acc[j]);
                            }
                        }
                        lemma_body_sources(toks, p2, encl, acc.push(child), acc_on);
                    }
                }
            }
        }
    }
}

proof fn lemma_erase_sources(n: StateModel)
    requires
        sources_ok(n),
    ensures
        sources_ok(erase_node(n)),
    decreases n,
{
    lemma_erase_on_shape(n.on, 0);
    lemma_erase_kids_shape(n.states, 0);
    assert forall|i: int| 0 <= i < erase_node(n).states.len() implies sources_ok(
        #[trigger] erase_node(n).states[i],
    ) by {
        lemma_erase_sources(n.states[i]);
    }
}

proof fn lemma_append_stubs_sources(
    states: Seq<StateModel>,
    reqs: Seq<StubReq>,
    i: int,
    path: Seq<Seq<char>>,
)
    requires
        0 <= i <= reqs.len(),
        forall|j: int| 0 <= j < states.len() ==> sources_ok(#[trigger] states[j]),
    ensures
        forall|j: int| 0 <= j < append_stubs(states, reqs, i, path).len() ==> sources_ok(
            #[trigger] append_stubs(states, reqs, i, path)[j],
        ),
    decreases reqs.len() - i,
{
    if i < reqs.len() {
        let s2 = if reqs[i].path == path && !crate::ast::contains_id(states, reqs[i].name) {
            states.push(stub_state(reqs[i].name))
        } else {
            states
        };
        assert forall|j: int| 0 <= j < s2.len() implies sources_ok(#[trigger] s2[j]) by {
            if j == states.len() {
                assert(s2[j] == stub_state(reqs[i].name));
            }
        }
        lemma_append_stubs_sources(s2, reqs, i + 1, path);
        assert(append_stubs(states, reqs, i, path) == append_stubs(s2, reqs, i + 1, path));
    }
}

proof fn lemma_apply_sources(n: StateModel, path: Seq<Seq<char>>, reqs: Seq<StubReq>)
    requires
        sources_ok(n),
    ensures
        sources_ok(apply_node(n, path, reqs)),
    decreases n,
{
    lemma_apply_kids_shape(n.states, 0, path, reqs);
    let treated = apply_kids(n.states, 0, path, reqs);
    assert forall|j: int| 0 <= j < treated.len() implies sources_ok(#[trigger] treated[j]) by {
        lemma_apply_sources(n.states[j], path.push(n.states[j].id), reqs);
    }
    lemma_append_stubs_sources(treated, reqs, 0, path);
}

proof fn lemma_resolve_sources(
    n: StateModel,
    path: Seq<Seq<char>>,
    chain: Seq<ChainEntry>,
    root: StateModel,
)
    requires
        sources_ok(n),
    ensures
        resolve_node(n, path, chain, root) matches Ok(m) ==> sources_ok(m),
    decreases n,
{
    if let Ok(m) = resolve_node(n, path, chain, root) {
        lemma_resolve_on_shape(n.on, 0, root, chain);
        let chain2 = chain.push(ChainEntry { path, states: n.states });
        lemma_resolve_kids_shape(n.states, 0, path, chain2, root);
        assert forall|i: int| 0 <= i < m.on.len() implies (#[trigger] m.on[i]).source == m.id by {
            assert(n.on[0 + i] == n.on[i]);
        }
        assert forall|i: int| 0 <= i < m.states.len() implies sources_ok(
            #[trigger] m.states[i],
        ) by {
            assert(n.states[0 + i] == n.states[i]);
            lemma_resolve_sources(n.states[i], path.push(n.states[i].id), chain2, root);
        }
    }
}

/// Implicit source rule: in any successfully parsed tree, every
/// transition's source is the identifier of the state that owns it. In
/// particular a bare `-> target` line inside state `X`'s block yields a
/// transition owned by `X` whose source is `X`.
pub proof fn lemma_implicit_source(input: Seq<char>)
    ensures
        spec_parse(input) matches Ok(m) ==> sources_ok(m),
{
    if let Ok(m) = spec_parse(input) {
        let toks = crate::parser::drop_comments(crate::tokenizer::spec_tokenize(input)->Ok_0);
        let pst = spec_document(toks)->Ok_0;
        lemma_state_sources(toks, 0);
        lemma_strip_sources(pst);
        let t = strip(pst);
        let t0 = erase_node(t);
        let stubs = root_stubs(t0);
        lemma_erase_sources(t);
        lemma_apply_sources(t0, seq![t0.id], stubs);
        lemma_resolve_sources(
            apply_node(t0, seq![t0.id], stubs),
            seq![apply_node(t0, seq![t0.id], stubs).id],
            Seq::empty(),
            apply_node(t0, seq![t0.id], stubs),
        );
    }
}


// ---------------------------------------------------------------------
// Depth correspondence.
// ---------------------------------------------------------------------
/// The indentation balance of `toks[i..j)`: indents count one up,
/// dedents one down.
pub open spec fn net_indent(toks: Seq<SpanModel>, i: int, j: int) -> int
    decreases j - i,
{
    if i >= j {
        0
    } else {
        (if toks[i].tok is Indent {
            1int
        } else if toks[i].tok is Dedent {
            -1int
        } else {
            0int
        }) + net_indent(toks, i + 1, j)
    }
}

/// The node reached from `p` by a path of child indices.
pub open spec fn pnode_at(p: PState, path: Seq<int>) -> Option<PState>
    decreases path.len(),
{
    if path.len() == 0 {
        Some(p)
    } else if 0 <= path[0] < p.states.len() {
        pnode_at(p.states[path[0]], path.drop_first())
    } else {
        None
    }
}

/// Every state in the subtree is declared by an identifier token
/// carrying its name, and each child's declaration sits at indentation
/// balance one above its parent's, strictly later in the stream.
pub open spec fn depths_ok(toks: Seq<SpanModel>, p: PState) -> bool
    decreases p, 0int,
{
    &&& 0 <= p.decl < toks.len()
    &&& toks[p.decl].tok is Identifier
    &&& toks[p.decl].tok->Identifier_0 == p.id
    &&& kids_depths_ok(toks, p.states, 0, p.decl)
}

pub open spec fn kids_depths_ok(
    toks: Seq<SpanModel>,
    kids: Seq<PState>,
    i: int,
    parent_decl: int,
) -> bool
    decreases kids, kids.len() - i + 1,
{
    i < 0 || i >= kids.len() || {
        &&& parent_decl < kids[i].decl
        &&& net_indent(toks, parent_decl, kids[i].decl) == 1
        &&& depths_ok(toks, kids[i])
        &&& kids_depths_ok(toks, kids, i + 1, parent_decl)
    }
}

/// Balance adds over adjacent ranges.
proof fn lemma_net_add(toks: Seq<SpanModel>, a: int, b: int, c: int)
    requires
        a <= b <= c,
    ensures
        net_indent(toks, a, c) == net_indent(toks, a, b) + net_indent(toks, b, c),
    decreases b - a,
{
    if a < b {
        lemma_net_add(toks, a + 1, b, c);
    }
}

/// A run without structural tokens has balance zero.
proof fn lemma_net_flat(toks: Seq<SpanModel>, i: int, j: int)
    requires
        i <= j,
        forall|k: int|
            i <= k < j ==> !((#[trigger] toks[k]).tok is Indent) && !(toks[k].tok is Dedent),
    ensures
        net_indent(toks, i, j) == 0,
    decreases j - i,
{
    if i < j {
        lemma_net_flat(toks, i + 1, j);
    }
}

/// `kids_depths_ok` holds pointwise.
proof fn lemma_kids_depths_index(
    toks: Seq<SpanModel>,
    kids: Seq<PState>,
    i: int,
    parent_decl: int,
)
    requires
        0 <= i <= kids.len(),
        kids_depths_ok(toks, kids, i, parent_decl),
    ensures
        forall|k: int|
            i <= k < kids.len() ==> {
                &&& parent_decl < (#[trigger] kids[k]).decl
                &&& net_indent(toks, parent_decl, kids[k].decl) == 1
                &&& depths_ok(toks, kids[k])
            },
    decreases kids.len() - i,
{
    if i < kids.len() {
        lemma_kids_depths_index(toks, kids, i + 1, parent_decl);
    }
}

/// From `depths_ok`, the path-indexed statement: the node reached by a
/// path of child indices is declared at indentation balance equal to
/// the path's length, relative to the subtree's own declaration.
proof fn lemma_depths_ok_path(toks: Seq<SpanModel>, p: PState, path: Seq<int>)
    requires
        depths_ok(toks, p),
    ensures
        pnode_at(p, path) matches Some(n) ==> {
            &&& p.decl <= n.decl < toks.len()
            &&& toks[n.decl].tok is Identifier
            &&& toks[n.decl].tok->Identifier_0 == n.id
            &&& net_indent(toks, p.decl, n.decl) == path.len()
        },
    decreases path.len(),
{
    if path.len() > 0 {
        if 0 <= path[0] < p.states.len() {
            let c = p.states[path[0]];
            lemma_kids_depths_index(toks, p.states, 0, p.decl);
            lemma_depths_ok_path(toks, c, path.drop_first());
            if let Some(n) = pnode_at(c, path.drop_first()) {
                lemma_net_add(toks, p.decl, c.decl, n.decl);
            }
        }
    }
}


/// A transition line holds no structural tokens: parsing it leaves the
/// indentation balance unchanged.
proof fn lemma_trans_flat(toks: Seq<SpanModel>, pos: int, src: Seq<char>)
    requires
        0 <= pos,
        !(toks[pos].tok is Indent),
        !(toks[pos].tok is Dedent),
    ensures
        spec_trans(toks, pos, src) matches Ok(r) ==> pos < r.0 <= toks.len() && net_indent(
            toks,
            pos,
            r.0,
        ) == 0,
{
    if let Ok((e2, tm)) = spec_trans(toks, pos, src) {
        let q = pos + 1;
        assert forall|k: int| pos <= k < e2 implies !((#[trigger] toks[k]).tok is Indent) && !(
        toks[k].tok is Dedent) by {
            if k == q {
            } else if k == q + 1 {
            } else if k == q + 2 {
            }
        }
        lemma_net_flat(toks, pos, e2);
    }
}

/// The push of a fitting sibling keeps the sibling bookkeeping.
proof fn lemma_kids_depths_push(
    toks: Seq<SpanModel>,
    kids: Seq<PState>,
    i: int,
    parent_decl: int,
    x: PState,
)
    requires
        0 <= i <= kids.len(),
        kids_depths_ok(toks, kids, i, parent_decl),
        parent_decl < x.decl,
        net_indent(toks, parent_decl, x.decl) == 1,
        depths_ok(toks, x),
    ensures
        kids_depths_ok(toks, kids.push(x), i, parent_decl),
    decreases kids.len() - i,
{
    if i < kids.len() {
        assert(kids.push(x)[i] == kids[i]);
        lemma_kids_depths_push(toks, kids, i + 1, parent_decl, x);
    } else {
        assert(kids.push(x)[i] == x);
        assert(kids_depths_ok(toks, kids.push(x), i + 1, parent_decl));
    }
}

/// Attaching one more transition to a sibling keeps the bookkeeping:
/// the declaration, name and children are untouched.
proof fn lemma_kids_depths_update_on(
    toks: Seq<SpanModel>,
    kids: Seq<PState>,
    i: int,
    parent_decl: int,
    at: int,
    tm: TransModel,
)
    requires
        0 <= i <= kids.len(),
        0 <= at < kids.len(),
        kids_depths_ok(toks, kids, i, parent_decl),
    ensures
        kids_depths_ok(toks, kids.update(at, push_on(kids[at], tm)), i, parent_decl),
    decreases kids.len() - i,
{
    if i < kids.len() {
        let kids2 = kids.update(at, push_on(kids[at], tm));
        if i == at {
            let u = push_on(kids[at], tm);
            assert(depths_ok(toks, kids[at]));
            assert(u.decl == kids[at].decl && u.id == kids[at].id && u.states == kids[at].states);
            assert(kids_depths_ok(toks, u.states, 0, u.decl) == kids_depths_ok(
                toks,
                kids[at].states,
                0,
                kids[at].decl,
            ));
            assert(depths_ok(toks, u));
        } else {
            assert(kids2[i] == kids[i]);
        }
        lemma_kids_depths_update_on(toks, kids, i + 1, parent_decl, at, tm);
    }
}

proof fn lemma_state_depths(toks: Seq<SpanModel>, pos: int)
    ensures
        spec_state(toks, pos) matches Ok(r) ==> {
            &&& depths_ok(toks, r.1)
            &&& r.1.decl == pos
            &&& pos < r.0 <= toks.len()
            &&& net_indent(toks, pos, r.0) == 0
        },
    decreases toks.len() - pos, 0int,
{
    if 0 <= pos < toks.len() && toks[pos].tok is Identifier {
        let id = toks[pos].tok->Identifier_0;
        let par = pos + 1 < toks.len() && toks[pos + 1].tok is ParallelState;
        let p1 = pos + 1 + (if par {
            1int
        } else {
            0int
        });
        let fin = p1 < toks.len() && toks[p1].tok is FinalState;
        let p2 = p1 + (if fin {
            1int
        } else {
            0int
        });
        let ini = p2 < toks.len() && toks[p2].tok is InitialState;
        let p3 = p2 + (if ini {
            1int
        } else {
            0int
        });
        assert forall|k: int| pos <= k < p3 implies !((#[trigger] toks[k]).tok is Indent) && !(
        toks[k].tok is Dedent) by {
            if k == pos {
            } else if k == pos + 1 {
            } else if k == p1 {
            } else if k == p2 {
            }
        }
        lemma_net_flat(toks, pos, p3);
        if !(par && fin) && p3 < toks.len() && toks[p3].tok is Indent && !fin {
            assert(net_indent(toks, p3, p3 + 1) == 1) by {
                assert(net_indent(toks, p3 + 1, p3 + 1) == 0);
            }
            lemma_net_add(toks, pos, p3, p3 + 1);
            lemma_body_depths(toks, p3 + 1, id, Seq::empty(), Seq::empty(), pos);
            if let Ok((p4, kids, trans)) = spec_body(toks, p3 + 1, id, Seq::empty(), Seq::empty()) {
                if p4 < toks.len() && toks[p4].tok is Dedent {
                    assert(net_indent(toks, p4, p4 + 1) == -1) by {
                        assert(net_indent(toks, p4 + 1, p4 + 1) == 0);
                    }
                    lemma_net_add(toks, pos, p4, p4 + 1);
                }
            }
        }
    }
}

proof fn lemma_body_depths(
    toks: Seq<SpanModel>,
    pos: int,
    encl: Seq<char>,
    acc: Seq<PState>,
    acc_on: Seq<TransModel>,
    anchor: int,
)
    requires
        0 <= anchor < pos <= toks.len(),
        net_indent(toks, anchor, pos) == 1,
        kids_depths_ok(toks, acc, 0, anchor),
    ensures
        spec_body(toks, pos, encl, acc, acc_on) matches Ok(t3) ==> {
            &&& kids_depths_ok(toks, t3.1, 0, anchor)
            &&& pos <= t3.0 <= toks.len()
            &&& net_indent(toks, anchor, t3.0) == 1
        },
    decreases toks.len() - pos, 1int,
{
    if 0 <= pos < toks.len() {
        if toks[pos].tok is Dedent {
        } else if toks[pos].tok is TransitionArrow {
            lemma_trans_flat(toks, pos, encl);
            if let Ok((p2, tm)) = spec_trans(toks, pos, encl) {
                if p2 > pos && p2 <= toks.len() {
                    lemma_net_add(toks, anchor, pos, p2);
                    lemma_body_depths(toks, p2, encl, acc, acc_on.push(tm), anchor);
                }
            }
        } else if toks[pos].tok is Identifier {
            let x = toks[pos].tok->Identifier_0;
            if pos + 1 < toks.len() && toks[pos + 1].tok is TransitionArrow {
                lemma_trans_flat(toks, pos + 1, x);
                if let Ok((p2, tm)) = spec_trans(toks, pos + 1, x) {
                    if p2 > pos && p2 <= toks.len() {
                        assert(net_indent(toks, pos, pos + 1) == 0) by {
                            assert(net_indent(toks, pos + 1, pos + 1) == 0);
                        }
                        lemma_net_add(toks, pos, pos + 1, p2);
                        lemma_net_add(toks, anchor, pos, p2);
                        match find_sibling_from(acc, x, 0) {
                            Some(i) => {
                                lemma_find_sibling_id(acc, x, 0);
                                if acc[i].typ != crate::ast::StateType::FinalState {
                                    lemma_kids_depths_update_on(toks, acc, 0, anchor, i, tm);
                                    lemma_body_depths(
                                        toks,
                                        p2,
                                        encl,
                                        acc.update(i, push_on(acc[i], tm)),
                                        acc_on,
                                        anchor,
                                    );
                                }
                            },
                            None => {
                                let stub = source_stub(pos, x, tm);
                                assert(depths_ok(toks, stub));
                                lemma_kids_depths_push(toks, acc, 0, anchor, stub);
                                lemma_body_depths(toks, p2, encl, acc.push(stub), acc_on, anchor);
                            },
                        }
                    }
                }
            } else {
                lemma_state_depths(toks, pos);
                if let Ok((p2, child)) = spec_state(toks, pos) {
                    if find_sibling_from(acc, child.id, 0) is None && !(child.is_initial
                        && marked_initial(acc)) && p2 > pos && p2 <= toks.len() {
                        crate::parser::lemma_spec_state_shape(toks, pos);
                        lemma_net_add(toks, anchor, pos, p2);
                        lemma_kids_depths_push(toks, acc, 0, anchor, child);
                        lemma_body_depths(toks, p2, encl, acc.push(child), acc_on, anchor);
                    }
                }
            }
        }
    }
}

/// Depth correspondence: in the raw tree the parser builds (with each
/// state's declaring token position still attached), the nesting depth
/// of any state equals the indentation balance — indents minus their
/// matching dedents — of the token stream before its declaration.
pub proof fn lemma_depth_correspondence(toks: Seq<SpanModel>, path: Seq<int>)
    ensures
        spec_document(toks) matches Ok(root) ==> (pnode_at(root, path) matches Some(n) ==> {
            &&& 0 <= n.decl < toks.len()
            &&& toks[n.decl].tok is Identifier
            &&& toks[n.decl].tok->Identifier_0 == n.id
            &&& net_indent(toks, 0, n.decl) == path.len()
        }),
{
    if let Ok(root) = spec_document(toks) {
        lemma_state_depths(toks, 0);
        lemma_depths_ok_path(toks, root, path);
    }
}


// ---------------------------------------------------------------------
// Tree invariants of the parsed tree.
// ---------------------------------------------------------------------
/// Pairwise distinct identifiers, over the annotated trees.
pub open spec fn punique(acc: Seq<PState>) -> bool {
    forall|i: int, j: int| 0 <= i < j < acc.len() ==> acc[i].id != acc[j].id
}

/// Some sibling carries `id`, over the annotated trees.
pub open spec fn p_contains(acc: Seq<PState>, id: Seq<char>) -> bool {
    exists|i: int| 0 <= i < acc.len() && acc[i].id == id
}

/// The well-formedness of [`crate::ast::wf_state`], over the annotated
/// trees the spec parser builds.
pub open spec fn pwf(p: PState) -> bool
    decreases p,
{
    &&& (forall|i: int| 0 <= i < p.on.len() ==> (#[trigger] p.on[i]).source == p.id)
    &&& punique(p.states)
    &&& at_most_one_initial_p(p.states)
    &&& (p.typ == crate::ast::StateType::FinalState ==> p.states.len() == 0 && p.on.len() == 0)
    &&& (p.typ == crate::ast::StateType::AtomicState ==> p.states.len() == 0)
    &&& (p.typ == crate::ast::StateType::CompoundState ==> p.states.len() > 0)
    &&& (match p.initial {
        Some(id) => p_contains(p.states, id),
        None => p.states.len() == 0,
    })
    &&& (forall|i: int| 0 <= i < p.states.len() ==> pwf(#[trigger] p.states[i]))
}

proof fn lemma_find_sibling_none(acc: Seq<PState>, id: Seq<char>, i: int)
    requires
        0 <= i <= acc.len(),
    ensures
        find_sibling_from(acc, id, i) is None ==> forall|j: int|
            i <= j < acc.len() ==> (#[trigger] acc[j]).id != id,
    decreases acc.len() - i,
{
    if i < acc.len() && acc[i].id != id {
        lemma_find_sibling_none(acc, id, i + 1);
    }
}

proof fn lemma_strip_wf(p: PState)
    requires
        pwf(p),
    ensures
        wf_state(strip(p)),
    decreases p,
{
    lemma_strip_all(p.states);
    let st = strip(p);
    assert(unique_ids(st.states));
    assert(at_most_one_initial(st.states));
    if let Some(id) = p.initial {
        let w = choose|i: int| 0 <= i < p.states.len() && p.states[i].id == id;
        assert(st.states[w].id == id);
        assert(contains_id(st.states, id));
    }
    assert forall|i: int| 0 <= i < st.states.len() implies wf_state(#[trigger] st.states[i]) by {
        assert(st.states[i] == strip(p.states[i]));
        lemma_strip_wf(p.states[i]);
    }
}

proof fn lemma_state_wf(toks: Seq<SpanModel>, pos: int)
    ensures
        spec_state(toks, pos) matches Ok(r) ==> pwf(r.1),
    decreases toks.len() - pos, 0int,
{
    if 0 <= pos < toks.len() && toks[pos].tok is Identifier {
        let id = toks[pos].tok->Identifier_0;
        let par = pos + 1 < toks.len() && toks[pos + 1].tok is ParallelState;
        let p1 = pos + 1 + (if par {
            1int
        } else {
            0int
        });
        let fin = p1 < toks.len() && toks[p1].tok is FinalState;
        let p2 = p1 + (if fin {
            1int
        } else {
            0int
        });
        let ini = p2 < toks.len() && toks[p2].tok is InitialState;
        let p3 = p2 + (if ini {
            1int
        } else {
            0int
        });
        if !(par && fin) && p3 < toks.len() && toks[p3].tok is Indent && !fin {
            lemma_body_wf(toks, p3 + 1, id, Seq::empty(), Seq::empty());
            if let Ok((p4, kids, trans)) = spec_body(toks, p3 + 1, id, Seq::empty(), Seq::empty()) {
                if p4 < toks.len() && toks[p4].tok is Dedent {
                    if kids.len() > 0 && marked_initial(kids) {
                        let w = choose|i: int| 0 <= i < kids.len() && kids[i].is_initial;
                        assert(p_contains(kids, kids[w].id));
                    } else if kids.len() > 0 {
                        assert(p_contains(kids, kids[0].id));
                    }
                }
            }
        }
    }
}

proof fn lemma_body_wf(
    toks: Seq<SpanModel>,
    pos: int,
    encl: Seq<char>,
    acc: Seq<PState>,
    acc_on: Seq<TransModel>,
)
    requires
        punique(acc),
        at_most_one_initial_p(acc),
        forall|i: int| 0 <= i < acc.len() ==> pwf(#[trigger] acc[i]),
        forall|i: int| 0 <= i < acc_on.len() ==> (#[trigger] acc_on[i]).source == encl,
    ensures
        spec_body(toks, pos, encl, acc, acc_on) matches Ok(t3) ==> {
            &&& punique(t3.1)
            &&& at_most_one_initial_p(t3.1)
            &&& (forall|i: int| 0 <= i < t3.1.len() ==> pwf(#[trigger] t3.1[i]))
            &&& (forall|i: int| 0 <= i < t3.2.len() ==> (#[trigger] t3.2[i]).source == encl)
        },
    decreases toks.len() - pos, 1int,
{
    if 0 <= pos < toks.len() {
        if toks[pos].tok is Dedent {
        } else if toks[pos].tok is TransitionArrow {
            if let Ok((p2, tm)) = spec_trans(toks, pos, encl) {
                if p2 > pos && p2 <= toks.len() {
                    assert forall|i: int| 0 <= i < acc_on.push(tm).len() implies (#[trigger] acc_on.push(
                        tm,
                    )[i]).source == encl by {
                        if i < acc_on.len() {
                            assert(acc_on.push(tm)[i] == acc_on[i]);
                        }
                    }
                    lemma_body_wf(toks, p2, encl, acc, acc_on.push(tm));
                }
            }
        } else if toks[pos].tok is Identifier {
            let x = toks[pos].tok->Identifier_0;
            if pos + 1 < toks.len() && toks[pos + 1].tok is TransitionArrow {
                if let Ok((p2, tm)) = spec_trans(toks, pos + 1, x) {
                    lemma_find_sibling_id(acc, x, 0);
                    lemma_find_sibling_none(acc, x, 0);
                    match find_sibling_from(acc, x, 0) {
                        Some(i) => {
                            if acc[i].typ != crate::ast::StateType::FinalState && p2 > pos && p2
                                <= toks.len() {
                                let u = push_on(acc[i], tm);
                                let acc2 = acc.update(i, u);
                                assert(pwf(acc[i]));
                                assert forall|k: int| 0 <= k < u.on.len() implies (
                                #[trigger] u.on[k]).source == u.id by {
                                    if k < acc[i].on.len() {
                                        assert(u.on[k] == acc[i].on[k]);
                                    }
                                }
                                assert(pwf(u));
                                assert forall|j: int| 0 <= j < acc2.len() implies pwf(
                                    #[trigger] acc2[j],
                                ) by {
                                    if j != i {
                                        assert(acc2[j] == acc[j]);
                                    }
                                }
                                assert(punique(acc2)) by {
                                    assert(forall|j: int|
                                        0 <= j < acc2.len() ==> (#[trigger] acc2[j]).id == acc[
                                            j
                                        ].id);
                                }
                                assert(at_most_one_initial_p(acc2)) by {
                                    assert(forall|j: int|
                                        0 <= j < acc2.len() ==> (#[trigger] acc2[j]).is_initial
                                            == acc[j].is_initial);
                                }
                                lemma_body_wf(toks, p2, encl, acc2, acc_on);
                            }
                        },
                        None => {
                            if p2 > pos && p2 <= toks.len() {
                                let stub = source_stub(pos, x, tm);
                                assert(pwf(stub)) by {
                                    assert(stub.on =~= seq![tm]);
                                }
                                lemma_acc_push_wf(acc, stub);
                                lemma_body_wf(toks, p2, encl, acc.push(stub), acc_on);
                            }
                        },
                    }
                }
            } else {
                lemma_state_wf(toks, pos);
                if let Ok((p2, child)) = spec_state(toks, pos) {
                    if find_sibling_from(acc, child.id, 0) is None && !(child.is_initial
                        && marked_initial(acc)) && p2 > pos && p2 <= toks.len() {
                        lemma_find_sibling_none(acc, child.id, 0);
                        lemma_acc_push_wf(acc, child);
                        lemma_body_wf(toks, p2, encl, acc.push(child), acc_on);
                    }
                }
            }
        }
    }
}

/// Pushing a well-formed, fresh, properly marked sibling keeps the
/// sibling-set invariants.
proof fn lemma_acc_push_wf(acc: Seq<PState>, x: PState)
    requires
        punique(acc),
        at_most_one_initial_p(acc),
        forall|i: int| 0 <= i < acc.len() ==> pwf(#[trigger] acc[i]),
        pwf(x),
        forall|i: int| 0 <= i < acc.len() ==> (#[trigger] acc[i]).id != x.id,
        x.is_initial ==> !marked_initial(acc),
    ensures
        punique(acc.push(x)),
        at_most_one_initial_p(acc.push(x)),
        forall|i: int| 0 <= i < acc.push(x).len() ==> pwf(#[trigger] acc.push(x)[i]),
{
    let acc2 = acc.push(x);
    assert forall|i: int, j: int| 0 <= i < j < acc2.len() implies acc2[i].id != acc2[j].id by {
        if j < acc.len() {
            assert(acc2[i] == acc[i] && acc2[j] == acc[j]);
        } else {
            assert(acc2[i] == acc[i] && acc2[j] == x);
        }
    }
    assert forall|i: int, j: int|
        (0 <= i < acc2.len() && 0 <= j < acc2.len() && acc2[i].is_initial
            && acc2[j].is_initial) implies i == j by {
        if i < acc.len() && j < acc.len() {
            assert(acc2[i] == acc[i] && acc2[j] == acc[j]);
        } else if i < acc.len() {
            assert(acc2[i] == acc[i] && acc2[j] == x);
            assert(marked_initial(acc));
        } else if j < acc.len() {
            assert(acc2[i] == x && acc2[j] == acc[j]);
            assert(marked_initial(acc));
        }
    }
    assert forall|i: int| 0 <= i < acc2.len() implies pwf(#[trigger] acc2[i]) by {
        if i < acc.len() {
            assert(acc2[i] == acc[i]);
        } else {
            assert(acc2[i] == x);
        }
    }
}

/// Tree invariants: the tree built by a successful parse is well
/// formed — sibling identifiers are unique, at most one sibling carries
/// the initial marker, final states are leaves without transitions,
/// compound and atomic kinds agree with child ownership, `initial`
/// names an existing child exactly when there are children, and every
/// transition's source is its owning state.
pub proof fn lemma_parsed_tree_invariants(toks: Seq<SpanModel>)
    ensures
        spec_document(toks) matches Ok(root) ==> wf_state(strip(root)),
{
    if let Ok(root) = spec_document(toks) {
        lemma_state_wf(toks, 0);
        lemma_strip_wf(root);
    }
}

} // verus!
