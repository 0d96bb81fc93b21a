//! The reference resolver: a second pass over the completed raw tree
//! that turns every transition's textual target into an absolute path
//! (root identifier first) within the tree, or fails with the name of
//! what could not be found.
//!
//! Resolution rules:
//! - a target beginning with `#` is split on `.` and matched as an exact
//!   chain of child lookups from the root, regardless of where the
//!   transition stands; the first segment must be the root's identifier;
//! - any other target is searched lexically: first among the owning
//!   state's siblings, then in each enclosing sibling set outwards, the
//!   root's own identifier forming the outermost scope; the nearest
//!   match wins;
//! - a bare name found nowhere is auto-created as a stub atomic sibling
//!   of the transition's owning state (the documented forward-reference
//!   policy); only a root-level transition cannot be given such a
//!   sibling, so an unfound bare name there, like a failing `#` path
//!   segment, is an `UnresolvedReference`.
//!
//! The pass is a pure function of the tree: it first erases any earlier
//! resolution, then adds the stub siblings, then computes every
//! resolved path. Running it on its own output changes nothing, which
//! is proved in [`crate::laws`].

use vstd::prelude::*;

use crate::ast::{
    contains_id, lemma_state_models, lemma_state_models_push, opt_path_model, opt_text_model,
    path_model,
    state_models, trans_models, StateModel, StateNode, StateType, TransModel, TransitionNode,
};
use crate::diag::{ErrModel, ParseError};
use crate::tokenizer::{chars_of, chars_to_string};

verus! {

// ---------------------------------------------------------------------
// The spec-level resolver.
// ---------------------------------------------------------------------
/// The first child (at or after `i`) carrying `id`, if any.
pub open spec fn find_child_from(states: Seq<StateModel>, id: Seq<char>, i: int) -> Option<int>
    decreases states.len() - i,
{
    if i < 0 || i >= states.len() {
        None
    } else if states[i].id == id {
        Some(i)
    } else {
        find_child_from(states, id, i + 1)
    }
}

/// The first child carrying `id`, if any.
pub open spec fn find_child(states: Seq<StateModel>, id: Seq<char>) -> Option<int> {
    find_child_from(states, id, 0)
}

/// One enclosing scope: the sibling set `states` of some ancestor, and
/// `path`, the absolute path of the state owning that sibling set.
pub ghost struct ChainEntry {
    pub path: Seq<Seq<char>>,
    pub states: Seq<StateModel>,
}

/// Lexical-scope search, nearest set last: the last entry is the owning
/// state's own sibling set. A name found in a set resolves to that
/// set's owner path extended by the name; a name found in no set may
/// still name the root itself, the outermost scope.
pub open spec fn search_chain(
    chain: Seq<ChainEntry>,
    root_id: Seq<char>,
    target: Seq<char>,
) -> Option<Seq<Seq<char>>>
    decreases chain.len(),
{
    if chain.len() == 0 {
        if target == root_id {
            Some(seq![root_id])
        } else {
            None
        }
    } else if find_child(chain.last().states, target) is Some {
        Some(chain.last().path.push(target))
    } else {
        search_chain(chain.drop_last(), root_id, target)
    }
}

/// Whether a target is a root-qualified path reference.
pub open spec fn is_qualified(t: Seq<char>) -> bool {
    t.len() > 0 && t[0] == '#'
}

/// Splits a reference on `.`. Always yields at least one segment.
pub open spec fn split_dots(s: Seq<char>) -> Seq<Seq<char>>
    decreases s.len(),
{
    if s.len() == 0 {
        seq![Seq::empty()]
    } else if s[0] == '.' {
        seq![Seq::<char>::empty()] + split_dots(s.drop_first())
    } else {
        let rest = split_dots(s.drop_first());
        seq![seq![s[0]] + rest[0]] + rest.drop_first()
    }
}

/// Matches `segs[i..]` as a chain of child lookups from `cur`; `Err`
/// names the first segment that is not found.
pub open spec fn walk_segs(cur: StateModel, segs: Seq<Seq<char>>, i: int) -> Result<
    (),
    Seq<char>,
>
    decreases segs.len() - i,
{
    if i < 0 || i >= segs.len() {
        Ok(())
    } else {
        match find_child(cur.states, segs[i]) {
            Some(j) => walk_segs(cur.states[j], segs, i + 1),
            None => Err(segs[i]),
        }
    }
}

/// Resolves a `#`-qualified target by exact path match from the root:
/// the marker is stripped, the rest split on `.`; the first segment
/// must be the root's identifier and each further segment an existing
/// child down the chain. The resolved path is the segment list itself.
pub open spec fn resolve_qualified(root: StateModel, target: Seq<char>) -> Result<
    Seq<Seq<char>>,
    Seq<char>,
> {
    let segs = split_dots(target.drop_first());
    if segs[0] == root.id {
        match walk_segs(root, segs, 1) {
            Ok(u) => Ok(segs),
            Err(s) => Err(s),
        }
    } else {
        Err(segs[0])
    }
}

/// One target's resolution: qualified targets bypass the scope chain
/// entirely; bare targets are searched lexically.
pub open spec fn resolve_target(
    root: StateModel,
    chain: Seq<ChainEntry>,
    target: Seq<char>,
) -> Result<Seq<Seq<char>>, ErrModel> {
    if is_qualified(target) {
        match resolve_qualified(root, target) {
            Ok(p) => Ok(p),
            Err(seg) => Err(ErrModel::UnresolvedReference { name: seg }),
        }
    } else {
        match search_chain(chain, root.id, target) {
            Some(p) => Ok(p),
            None => Err(ErrModel::UnresolvedReference { name: target }),
        }
    }
}

// ---------------------------------------------------------------------
// Pass one: erase any earlier resolution.
// ---------------------------------------------------------------------
/// `t` with its resolved path removed.
pub open spec fn erase_trans(t: TransModel) -> TransModel {
    TransModel { source: t.source, target: t.target, resolved: None, cond: t.cond, action: t.action }
}

pub open spec fn erase_on(on: Seq<TransModel>, i: int) -> Seq<TransModel>
    decreases on.len() - i,
{
    if i < 0 || i >= on.len() {
        Seq::empty()
    } else {
        seq![erase_trans(on[i])] + erase_on(on, i + 1)
    }
}

/// The tree with every resolved path removed: what resolution starts
/// from, so that resolving again starts from the same place.
pub open spec fn erase_node(n: StateModel) -> StateModel
    decreases n, 0int,
{
    StateModel {
        id: n.id,
        typ: n.typ,
        initial: n.initial,
        is_initial: n.is_initial,
        on: erase_on(n.on, 0),
        states: erase_kids(n.states, 0),
    }
}

pub open spec fn erase_kids(kids: Seq<StateModel>, i: int) -> Seq<StateModel>
    decreases kids, kids.len() - i + 1,
{
    if i < 0 || i >= kids.len() {
        Seq::empty()
    } else {
        seq![erase_node(kids[i])] + erase_kids(kids, i + 1)
    }
}

// ---------------------------------------------------------------------
// Pass two: auto-create stub siblings for unfound bare targets.
// ---------------------------------------------------------------------
/// A requested stub: a new child named `name` under the state at `path`.
pub ghost struct StubReq {
    pub path: Seq<Seq<char>>,
    pub name: Seq<char>,
}

/// The stub state auto-created for a forward reference: atomic, no
/// children, no transitions, not initial.
pub open spec fn stub_state(name: Seq<char>) -> StateModel {
    StateModel {
        id: name,
        typ: StateType::AtomicState,
        initial: None,
        is_initial: false,
        on: Seq::empty(),
        states: Seq::empty(),
    }
}

/// The stubs requested by one transition list: one per bare target that
/// the scope search cannot find, placed in the owning state's own
/// sibling set (the chain's last entry). Root-level transitions have no
/// sibling set to extend.
pub open spec fn stubs_on(
    on: Seq<TransModel>,
    i: int,
    chain: Seq<ChainEntry>,
    root_id: Seq<char>,
) -> Seq<StubReq>
    decreases on.len() - i,
{
    if i < 0 || i >= on.len() {
        Seq::empty()
    } else {
        (if !is_qualified(on[i].target) && search_chain(chain, root_id, on[i].target) is None
            && chain.len() >= 1 {
            seq![StubReq { path: chain.last().path, name: on[i].target }]
        } else {
            Seq::empty()
        }) + stubs_on(on, i + 1, chain, root_id)
    }
}

/// The stubs requested anywhere in the subtree rooted at `n`, whose
/// absolute path is `path` and whose scope chain is `chain`.
pub open spec fn stubs_node(
    n: StateModel,
    path: Seq<Seq<char>>,
    chain: Seq<ChainEntry>,
    root_id: Seq<char>,
) -> Seq<StubReq>
    decreases n, 0int,
{
    stubs_on(n.on, 0, chain, root_id) + stubs_kids(
        n.states,
        0,
        path,
        chain.push(ChainEntry { path, states: n.states }),
        root_id,
    )
}

pub open spec fn stubs_kids(
    kids: Seq<StateModel>,
    i: int,
    ppath: Seq<Seq<char>>,
    chain: Seq<ChainEntry>,
    root_id: Seq<char>,
) -> Seq<StubReq>
    decreases kids, kids.len() - i + 1,
{
    if i < 0 || i >= kids.len() {
        Seq::empty()
    } else {
        stubs_node(kids[i], ppath.push(kids[i].id), chain, root_id) + stubs_kids(
            kids,
            i + 1,
            ppath,
            chain,
            root_id,
        )
    }
}

/// All stubs the tree requests.
pub open spec fn root_stubs(t: StateModel) -> Seq<StubReq> {
    stubs_node(t, seq![t.id], Seq::empty(), t.id)
}

/// Appends the requested stubs addressed to `path`, in request order,
/// skipping names already present (also those just added).
pub open spec fn append_stubs(
    states: Seq<StateModel>,
    reqs: Seq<StubReq>,
    i: int,
    path: Seq<Seq<char>>,
) -> Seq<StateModel>
    decreases reqs.len() - i,
{
    if i < 0 || i >= reqs.len() {
        states
    } else {
        let s2 = if reqs[i].path == path && !contains_id(states, reqs[i].name) {
            states.push(stub_state(reqs[i].name))
        } else {
            states
        };
        append_stubs(s2, reqs, i + 1, path)
    }
}

/// The tree with every requested stub in place: each node keeps its
/// own children (recursively treated) and gains the stubs addressed to
/// its path.
pub open spec fn apply_node(n: StateModel, path: Seq<Seq<char>>, reqs: Seq<StubReq>) -> StateModel
    decreases n, 0int,
{
    StateModel {
        id: n.id,
        typ: n.typ,
        initial: n.initial,
        is_initial: n.is_initial,
        on: n.on,
        states: append_stubs(apply_kids(n.states, 0, path, reqs), reqs, 0, path),
    }
}

pub open spec fn apply_kids(
    kids: Seq<StateModel>,
    i: int,
    ppath: Seq<Seq<char>>,
    reqs: Seq<StubReq>,
) -> Seq<StateModel>
    decreases kids, kids.len() - i + 1,
{
    if i < 0 || i >= kids.len() {
        Seq::empty()
    } else {
        seq![apply_node(kids[i], ppath.push(kids[i].id), reqs)] + apply_kids(
            kids,
            i + 1,
            ppath,
            reqs,
        )
    }
}

// ---------------------------------------------------------------------
// Pass three: compute every resolved path.
// ---------------------------------------------------------------------
/// Resolves each transition of one list, in order, stopping at the
/// first failure.
pub open spec fn resolve_on(
    on: Seq<TransModel>,
    i: int,
    root: StateModel,
    chain: Seq<ChainEntry>,
) -> Result<Seq<TransModel>, ErrModel>
    decreases on.len() - i,
{
    if i < 0 || i >= on.len() {
        Ok(Seq::empty())
    } else {
        match resolve_target(root, chain, on[i].target) {
            Err(e) => Err(e),
            Ok(p) => match resolve_on(on, i + 1, root, chain) {
                Err(e) => Err(e),
                Ok(rest) => Ok(
                    seq![
                        TransModel {
                            source: on[i].source,
                            target: on[i].target,
                            resolved: Some(p),
                            cond: on[i].cond,
                            action: on[i].action,
                        },
                    ] + rest,
                ),
            },
        }
    }
}

/// Resolves the whole subtree at `n` (absolute path `path`, scope chain
/// `chain`), against the full tree `root` for qualified references.
pub open spec fn resolve_node(
    n: StateModel,
    path: Seq<Seq<char>>,
    chain: Seq<ChainEntry>,
    root: StateModel,
) -> Result<StateModel, ErrModel>
    decreases n, 0int,
{
    match resolve_on(n.on, 0, root, chain) {
        Err(e) => Err(e),
        Ok(on2) => match resolve_kids(
            n.states,
            0,
            path,
            chain.push(ChainEntry { path, states: n.states }),
            root,
        ) {
            Err(e) => Err(e),
            Ok(kids2) => Ok(
                StateModel {
                    id: n.id,
                    typ: n.typ,
                    initial: n.initial,
                    is_initial: n.is_initial,
                    on: on2,
                    states: kids2,
                },
            ),
        },
    }
}

pub open spec fn resolve_kids(
    kids: Seq<StateModel>,
    i: int,
    ppath: Seq<Seq<char>>,
    chain: Seq<ChainEntry>,
    root: StateModel,
) -> Result<Seq<StateModel>, ErrModel>
    decreases kids, kids.len() - i + 1,
{
    if i < 0 || i >= kids.len() {
        Ok(Seq::empty())
    } else {
        match resolve_node(kids[i], ppath.push(kids[i].id), chain, root) {
            Err(e) => Err(e),
            Ok(k2) => match resolve_kids(kids, i + 1, ppath, chain, root) {
                Err(e) => Err(e),
                Ok(rest) => Ok(seq![k2] + rest),
            },
        }
    }
}

/// The resolver, as one mathematical function: erase any earlier
/// resolution, add the stub siblings the tree asks for, then compute
/// every resolved path; or fail with the first unresolvable name.
pub open spec fn spec_resolve(t: StateModel) -> Result<StateModel, ErrModel> {
    let t0 = erase_node(t);
    let t2 = apply_node(t0, seq![t0.id], root_stubs(t0));
    resolve_node(t2, seq![t2.id], Seq::empty(), t2)
}

// ---------------------------------------------------------------------
// The executable resolver.
// ---------------------------------------------------------------------
fn dup_opt_string(o: &Option<String>) -> (r: Option<String>)
    ensures
        opt_text_model(r) == opt_text_model(*o),
{
    match o {
        Some(s) => Some(s.clone()),
        None => None,
    }
}

fn dup_path(p: &Vec<String>) -> (r: Vec<String>)
    ensures
        path_model(r@) == path_model(p@),
{
    let mut out: Vec<String> = Vec::new();
    let mut i: usize = 0;
    while i < p.len()
        invariant
            i <= p@.len(),
            path_model(out@) == path_model(p@).subrange(0, i as int),
        decreases p@.len() - i,
    {
        let ghost pre = path_model(out@);
        out.push(p[i].clone());
        proof {
            assert(path_model(out@) =~= pre.push(p@[i as int]@));
            assert(path_model(out@) =~= path_model(p@).subrange(0, i + 1));
        }
        i = i + 1;
    }
    proof {
        assert(path_model(out@) =~= path_model(p@));
    }
    out
}

/// Whether two paths hold the same segments.
fn paths_equal(a: &Vec<String>, b: &Vec<String>) -> (r: bool)
    ensures
        r == (path_model(a@) == path_model(b@)),
{
    if a.len() != b.len() {
        proof {
            assert(path_model(a@).len() != path_model(b@).len());
        }
        return false;
    }
    let mut i: usize = 0;
    while i < a.len()
        invariant
            i <= a@.len(),
            a@.len() == b@.len(),
            forall|j: int| 0 <= j < i ==> path_model(a@)[j] == path_model(b@)[j],
        decreases a@.len() - i,
    {
        if !a[i].eq(&b[i]) {
            proof {
                assert(path_model(a@)[i as int] != path_model(b@)[i as int]);
            }
            return false;
        }
        i = i + 1;
    }
    proof {
        assert(path_model(a@) =~= path_model(b@));
    }
    true
}

/// The first child carrying `id`, if any.
fn find_child_exec(states: &Vec<StateNode>, id: &String) -> (r: Option<usize>)
    ensures
        r is Some <==> find_child(state_models(states@), id@) is Some,
        r matches Some(i) ==> find_child(state_models(states@), id@) == Some(i as int) && i
            < states@.len(),
{
    proof {
        lemma_state_models(states@);
    }
    let ghost sms = state_models(states@);
    let n = states.len();
    let mut i: usize = 0;
    while i < n
        invariant
            i <= n,
            n == states@.len(),
            sms == state_models(states@),
            sms.len() == n,
            forall|j: int| 0 <= j < states@.len() ==> sms[j] == states@[j]@,
            find_child(sms, id@) == find_child_from(sms, id@, i as int),
        decreases n - i,
    {
        if states[i].id.eq(id) {
            return Some(i);
        }
        i = i + 1;
    }
    None
}

/// The tree with every resolved path removed.
fn erase_state(n: &StateNode) -> (r: StateNode)
    ensures
        r@ == erase_node(n@),
    decreases *n,
{
    let ghost oms = trans_models(n.on@);
    let mut on2: Vec<TransitionNode> = Vec::new();
    let mut i: usize = 0;
    while i < n.on.len()
        invariant
            i <= n.on@.len(),
            oms == trans_models(n.on@),
            oms.len() == n.on@.len(),
            trans_models(on2@) + erase_on(oms, i as int) == erase_on(oms, 0),
        decreases n.on@.len() - i,
    {
        let ghost pre = trans_models(on2@);
        let t = &n.on[i];
        let t2 = TransitionNode {
            source: t.source.clone(),
            target: t.target.clone(),
            resolved: None,
            cond: dup_opt_string(&t.cond),
            action: dup_opt_string(&t.action),
        };
        proof {
            assert(oms[i as int] == n.on@[i as int]@);
            assert(t2@ == erase_trans(oms[i as int]));
        }
        on2.push(t2);
        proof {
            assert(trans_models(on2@) =~= pre.push(erase_trans(oms[i as int])));
            assert(trans_models(on2@) + erase_on(oms, i + 1) =~= pre + erase_on(oms, i as int));
        }
        i = i + 1;
    }
    proof {
        assert(trans_models(on2@) =~= trans_models(on2@) + erase_on(oms, n.on@.len() as int));
    }
    let ghost sms = state_models(n.states@);
    let mut kids2: Vec<StateNode> = Vec::new();
    let mut k: usize = 0;
    proof {
        lemma_state_models(n.states@);
    }
    while k < n.states.len()
        invariant
            k <= n.states@.len(),
            sms == state_models(n.states@),
            sms.len() == n.states@.len(),
            forall|j: int| 0 <= j < n.states@.len() ==> sms[j] == n.states@[j]@,
            state_models(kids2@) + erase_kids(sms, k as int) == erase_kids(sms, 0),
        decreases n.states@.len() - k,
    {
        let ghost pre = state_models(kids2@);
        let c = erase_state(&n.states[k]);
        proof {
            lemma_state_models_push(kids2@, c);
        }
        kids2.push(c);
        proof {
            assert(state_models(kids2@) + erase_kids(sms, k + 1) =~= pre + erase_kids(
                sms,
                k as int,
            ));
        }
        k = k + 1;
    }
    proof {
        assert(state_models(kids2@) =~= state_models(kids2@) + erase_kids(
            sms,
            n.states@.len() as int,
        ));
    }
    StateNode {
        id: n.id.clone(),
        typ: n.typ,
        initial: dup_opt_string(&n.initial),
        is_initial: n.is_initial,
        on: on2,
        states: kids2,
    }
}

/// How `split_dots` grows when one character is appended.
proof fn lemma_split_dots_push(s: Seq<char>, c: char)
    ensures
        c == '.' ==> split_dots(s.push(c)) == split_dots(s).push(Seq::<char>::empty()),
        c != '.' ==> split_dots(s.push(c)) == split_dots(s).update(
            split_dots(s).len() - 1,
            split_dots(s).last().push(c),
        ),
        split_dots(s).len() >= 1,
    decreases s.len(),
{
    if s.len() == 0 {
        assert(s.push(c) =~= seq![c]);
        assert(seq![c].drop_first() =~= Seq::<char>::empty());
        reveal_with_fuel(split_dots, 3);
        if c == '.' {
            assert(split_dots(s.push(c)) =~~= split_dots(s).push(Seq::<char>::empty()));
        } else {
            assert(split_dots(s.push(c)) =~~= split_dots(s).update(
                0,
                split_dots(s).last().push(c),
            ));
        }
    } else {
        lemma_split_dots_push(s.drop_first(), c);
        assert(s.push(c).drop_first() =~= s.drop_first().push(c));
        assert(s.push(c)[0] == s[0]);
        let rest = split_dots(s.drop_first());
        let restc = split_dots(s.drop_first().push(c));
        if c == '.' {
            assert(restc == rest.push(Seq::<char>::empty()));
            assert(split_dots(s.push(c)) =~~= split_dots(s).push(Seq::<char>::empty()));
        } else {
            assert(restc == rest.update(rest.len() - 1, rest.last().push(c)));
            if s[0] == '.' {
                assert(split_dots(s.push(c)) =~~= split_dots(s).update(
                    split_dots(s).len() - 1,
                    split_dots(s).last().push(c),
                ));
            } else {
                if rest.len() == 1 {
                    assert(restc[0] == rest[0].push(c));
                    assert(split_dots(s.push(c)) =~~= split_dots(s).update(
                        split_dots(s).len() - 1,
                        split_dots(s).last().push(c),
                    ));
                } else {
                    assert(restc[0] == rest[0]);
                    assert(split_dots(s.push(c)) =~~= split_dots(s).update(
                        split_dots(s).len() - 1,
                        split_dots(s).last().push(c),
                    ));
                }
            }
        }
    }
}

/// The segments of a qualified target, its `#` marker stripped.
fn split_target(chars: &Vec<char>) -> (r: Vec<String>)
    requires
        chars@.len() >= 1,
    ensures
        path_model(r@) == split_dots(chars@.drop_first()),
{
    let ghost tail = chars@.drop_first();
    let mut done: Vec<String> = Vec::new();
    let mut cur: Vec<char> = Vec::new();
    let mut i: usize = 1;
    proof {
        assert(tail.subrange(0, 0) =~= Seq::<char>::empty());
        assert(split_dots(Seq::<char>::empty()) =~= seq![Seq::<char>::empty()]);
        assert(path_model(done@).push(cur@) =~= split_dots(tail.subrange(0, 0)));
    }
    while i < chars.len()
        invariant
            1 <= i <= chars@.len(),
            tail == chars@.drop_first(),
            path_model(done@).push(cur@) == split_dots(tail.subrange(0, i - 1)),
        decreases chars@.len() - i,
    {
        let ghost pre = tail.subrange(0, i - 1);
        proof {
            lemma_split_dots_push(pre, chars@[i as int]);
            assert(pre.push(chars@[i as int]) =~= tail.subrange(0, i as int));
        }
        let c = chars[i];
        if c == '.' {
            let seg = chars_to_string(&cur);
            let ghost dpre = path_model(done@);
            let ghost curv = cur@;
            done.push(seg);
            cur = Vec::new();
            proof {
                assert(path_model(done@) =~= dpre.push(curv));
            }
        } else {
            cur.push(c);
        }
        proof {
            assert(path_model(done@).push(cur@) =~= split_dots(tail.subrange(0, i as int)));
        }
        i = i + 1;
    }
    let seg = chars_to_string(&cur);
    let ghost dpre = path_model(done@);
    done.push(seg);
    proof {
        assert(tail.subrange(0, tail.len() as int) =~= tail);
        assert(path_model(done@) =~= dpre.push(cur@));
        assert(path_model(done@) =~= split_dots(tail));
    }
    done
}

/// One enclosing scope as the executable resolver holds it: the sibling
/// set of an ancestor, borrowed from the tree, and the owner's path.
struct ChainLink<'a> {
    path: Vec<String>,
    states: &'a Vec<StateNode>,
}

spec fn link_model(l: ChainLink) -> ChainEntry {
    ChainEntry { path: path_model(l.path@), states: state_models(l.states@) }
}

spec fn link_models(ls: Seq<ChainLink>) -> Seq<ChainEntry> {
    ls.map(|i: int, l: ChainLink| link_model(l))
}

/// Lexical-scope search over the live chain, nearest set last.
fn search_exec<'a>(links: &Vec<ChainLink<'a>>, root_id: &String, target: &String) -> (r: Option<
    Vec<String>,
>)
    ensures
        match r {
            Some(p) => search_chain(link_models(links@), root_id@, target@) == Some(
                path_model(p@),
            ),
            None => search_chain(link_models(links@), root_id@, target@) is None,
        },
{
    let ghost ch = link_models(links@);
    let mut k = links.len();
    proof {
        assert(ch.subrange(0, ch.len() as int) =~= ch);
    }
    while k > 0
        invariant
            k <= links@.len(),
            ch == link_models(links@),
            ch.len() == links@.len(),
            search_chain(ch, root_id@, target@) == search_chain(
                ch.subrange(0, k as int),
                root_id@,
                target@,
            ),
        decreases k,
    {
        let kk = k - 1;
        let ghost chk = ch.subrange(0, k as int);
        proof {
            assert(chk.last() == ch[kk as int]);
            assert(ch[kk as int] == link_model(links@[kk as int]));
            assert(chk.drop_last() =~= ch.subrange(0, kk as int));
        }
        match find_child_exec(links[kk].states, target) {
            Some(_found) => {
                let mut p = dup_path(&links[kk].path);
                let ghost ppre = path_model(p@);
                p.push(target.clone());
                proof {
                    assert(path_model(p@) =~= ppre.push(target@));
                }
                return Some(p);
            },
            None => {},
        }
        k = kk;
    }
    proof {
        assert(ch.subrange(0, 0) =~= Seq::<ChainEntry>::empty());
    }
    if target.eq(root_id) {
        let mut p: Vec<String> = Vec::new();
        p.push(root_id.clone());
        proof {
            assert(path_model(p@) =~= seq![root_id@]);
        }
        Some(p)
    } else {
        None
    }
}


/// The models of the requested stubs as the executable resolver holds
/// them.
pub open spec fn stub_models(s: Seq<(Vec<String>, String)>) -> Seq<StubReq> {
    s.map(|i: int, e: (Vec<String>, String)| StubReq { path: path_model(e.0@), name: e.1@ })
}

/// `find_child` succeeds exactly on contained identifiers.
proof fn lemma_find_child_contains(states: Seq<StateModel>, id: Seq<char>, i: int)
    requires
        0 <= i <= states.len(),
    ensures
        find_child_from(states, id, i) is Some <==> exists|j: int|
            i <= j < states.len() && states[j].id == id,
    decreases states.len() - i,
{
    if i < states.len() {
        lemma_find_child_contains(states, id, i + 1);
    }
}

/// Whether `s` begins with the qualification marker.
fn is_qualified_exec(chars: &Vec<char>) -> (r: bool)
    ensures
        r == is_qualified(chars@),
{
    chars.len() > 0 && chars[0] == '#'
}

/// Collects every stub the subtree at `n` requests; `links` is the live
/// scope chain of `n` and is left as it was found.
fn collect_node<'a>(
    n: &'a StateNode,
    path: &Vec<String>,
    links: &mut Vec<ChainLink<'a>>,
    root_id: &String,
    out: &mut Vec<(Vec<String>, String)>,
)
    ensures
        final(links)@ == old(links)@,
        stub_models(final(out)@) == stub_models(old(out)@) + stubs_node(
            n@,
            path_model(path@),
            link_models(old(links)@),
            root_id@,
        ),
    decreases *n,
{
    let ghost ch = link_models(links@);
    let ghost oms = trans_models(n.on@);
    let ghost out0 = stub_models(out@);
    let mut i: usize = 0;
    while i < n.on.len()
        invariant
            i <= n.on@.len(),
            ch == link_models(links@),
            oms == trans_models(n.on@),
            oms.len() == n.on@.len(),
            stub_models(out@) + stubs_on(oms, i as int, ch, root_id@) == out0 + stubs_on(
                oms,
                0,
                ch,
                root_id@,
            ),
        decreases n.on@.len() - i,
    {
        let ghost pre = stub_models(out@);
        let t = &n.on[i];
        proof {
            assert(oms[i as int] == n.on@[i as int]@);
        }
        let tchars = chars_of(t.target.as_str());
        if !is_qualified_exec(&tchars) {
            match search_exec(links, root_id, &t.target) {
                Some(_p) => {},
                None => {
                    if links.len() >= 1 {
                        let last = links.len() - 1;
                        let rp = dup_path(&links[last].path);
                        out.push((rp, t.target.clone()));
                        proof {
                            assert(ch.last() == link_model(links@[links@.len() - 1]));
                            assert(stub_models(out@) =~= pre.push(
                                StubReq { path: ch.last().path, name: oms[i as int].target },
                            ));
                        }
                    }
                },
            }
        }
        proof {
            assert(stub_models(out@) + stubs_on(oms, i + 1, ch, root_id@) =~= pre + stubs_on(
                oms,
                i as int,
                ch,
                root_id@,
            ));
        }
        i = i + 1;
    }
    proof {
        assert(stub_models(out@) =~= stub_models(out@) + stubs_on(
            oms,
            n.on@.len() as int,
            ch,
            root_id@,
        ));
    }
    let link = ChainLink { path: dup_path(path), states: &n.states };
    let ghost links0 = links@;
    links.push(link);
    let ghost ch2 = link_models(links@);
    let ghost sms = state_models(n.states@);
    proof {
        assert(ch2 =~= ch.push(ChainEntry { path: path_model(path@), states: sms }));
        lemma_state_models(n.states@);
    }
    let ghost out_mid = stub_models(out@);
    let mut k: usize = 0;
    while k < n.states.len()
        invariant
            k <= n.states@.len(),
            links@ == links0.push(link),
            ch2 == link_models(links@),
            sms == state_models(n.states@),
            sms.len() == n.states@.len(),
            forall|j: int| 0 <= j < n.states@.len() ==> sms[j] == n.states@[j]@,
            stub_models(out@) + stubs_kids(sms, k as int, path_model(path@), ch2, root_id@)
                == out_mid + stubs_kids(sms, 0, path_model(path@), ch2, root_id@),
        decreases n.states@.len() - k,
    {
        let ghost pre = stub_models(out@);
        let mut cpath = dup_path(path);
        cpath.push(n.states[k].id.clone());
        proof {
            assert(path_model(cpath@) =~= path_model(path@).push(sms[k as int].id));
        }
        collect_node(&n.states[k], &cpath, links, root_id, out);
        proof {
            assert(stub_models(out@) + stubs_kids(
                sms,
                k + 1,
                path_model(path@),
                ch2,
                root_id@,
            ) =~= pre + stubs_kids(sms, k as int, path_model(path@), ch2, root_id@));
        }
        k = k + 1;
    }
    proof {
        assert(stub_models(out@) =~= stub_models(out@) + stubs_kids(
            sms,
            n.states@.len() as int,
            path_model(path@),
            ch2,
            root_id@,
        ));
    }
    let _dropped = links.pop();
    proof {
        assert(links@ =~= links0);
    }
}

fn dup_opt_path(o: &Option<Vec<String>>) -> (r: Option<Vec<String>>)
    ensures
        opt_path_model(r) == opt_path_model(*o),
{
    match o {
        Some(p) => Some(dup_path(p)),
        None => None,
    }
}

fn dup_transition(t: &TransitionNode) -> (r: TransitionNode)
    ensures
        r@ == t@,
{
    TransitionNode {
        source: t.source.clone(),
        target: t.target.clone(),
        resolved: dup_opt_path(&t.resolved),
        cond: dup_opt_string(&t.cond),
        action: dup_opt_string(&t.action),
    }
}

/// The subtree at `n` with every requested stub in place.
fn apply_state(n: &StateNode, path: &Vec<String>, reqs: &Vec<(Vec<String>, String)>) -> (r:
    StateNode)
    ensures
        r@ == apply_node(n@, path_model(path@), stub_models(reqs@)),
    decreases *n,
{
    let ghost rqs = stub_models(reqs@);
    let ghost sms = state_models(n.states@);
    let ghost ppath = path_model(path@);
    proof {
        lemma_state_models(n.states@);
    }
    let mut kids2: Vec<StateNode> = Vec::new();
    let mut k: usize = 0;
    while k < n.states.len()
        invariant
            k <= n.states@.len(),
            rqs == stub_models(reqs@),
            ppath == path_model(path@),
            sms == state_models(n.states@),
            sms.len() == n.states@.len(),
            forall|j: int| 0 <= j < n.states@.len() ==> sms[j] == n.states@[j]@,
            state_models(kids2@) + apply_kids(sms, k as int, ppath, rqs) == apply_kids(
                sms,
                0,
                ppath,
                rqs,
            ),
        decreases n.states@.len() - k,
    {
        let ghost pre = state_models(kids2@);
        let mut cpath = dup_path(path);
        cpath.push(n.states[k].id.clone());
        proof {
            assert(path_model(cpath@) =~= ppath.push(sms[k as int].id));
        }
        let c = apply_state(&n.states[k], &cpath, reqs);
        proof {
            lemma_state_models_push(kids2@, c);
        }
        kids2.push(c);
        proof {
            assert(state_models(kids2@) + apply_kids(sms, k + 1, ppath, rqs) =~= pre + apply_kids(
                sms,
                k as int,
                ppath,
                rqs,
            ));
        }
        k = k + 1;
    }
    proof {
        assert(state_models(kids2@) =~= state_models(kids2@) + apply_kids(
            sms,
            n.states@.len() as int,
            ppath,
            rqs,
        ));
    }
    let ghost applied = state_models(kids2@);
    let mut j: usize = 0;
    while j < reqs.len()
        invariant
            j <= reqs@.len(),
            rqs == stub_models(reqs@),
            ppath == path_model(path@),
            rqs.len() == reqs@.len(),
            append_stubs(state_models(kids2@), rqs, j as int, ppath) == append_stubs(
                applied,
                rqs,
                0,
                ppath,
            ),
        decreases reqs@.len() - j,
    {
        let ghost cur = state_models(kids2@);
        proof {
            assert(rqs[j as int] == (StubReq { path: path_model(reqs@[j as int].0@), name: reqs@[j as int].1@ }));
        }
        if paths_equal(&reqs[j].0, path) {
            match find_child_exec(&kids2, &reqs[j].1) {
                Some(_present) => {
                    proof {
                        lemma_find_child_contains(cur, rqs[j as int].name, 0);
                    }
                },
                None => {
                    proof {
                        lemma_find_child_contains(cur, rqs[j as int].name, 0);
                    }
                    let stub = StateNode {
                        id: reqs[j].1.clone(),
                        typ: StateType::AtomicState,
                        initial: None,
                        is_initial: false,
                        on: Vec::new(),
                        states: Vec::new(),
                    };
                    proof {
                        assert(trans_models(stub.on@) =~= Seq::<TransModel>::empty());
                        assert(state_models(stub.states@) =~= Seq::<StateModel>::empty());
                        assert(stub@ == stub_state(rqs[j as int].name));
                        lemma_state_models_push(kids2@, stub);
                    }
                    kids2.push(stub);
                },
            }
        }
        j = j + 1;
    }
    let ghost oms = trans_models(n.on@);
    let mut on2: Vec<TransitionNode> = Vec::new();
    let mut i: usize = 0;
    while i < n.on.len()
        invariant
            i <= n.on@.len(),
            oms == trans_models(n.on@),
            oms.len() == n.on@.len(),
            trans_models(on2@) == oms.subrange(0, i as int),
        decreases n.on@.len() - i,
    {
        let ghost pre = trans_models(on2@);
        let t2 = dup_transition(&n.on[i]);
        proof {
            assert(oms[i as int] == n.on@[i as int]@);
        }
        on2.push(t2);
        proof {
            assert(trans_models(on2@) =~= pre.push(oms[i as int]));
            assert(trans_models(on2@) =~= oms.subrange(0, i + 1));
        }
        i = i + 1;
    }
    proof {
        assert(trans_models(on2@) =~= oms);
    }
    StateNode {
        id: n.id.clone(),
        typ: n.typ,
        initial: dup_opt_string(&n.initial),
        is_initial: n.is_initial,
        on: on2,
        states: kids2,
    }
}


proof fn lemma_split_dots_len(s: Seq<char>)
    ensures
        split_dots(s).len() >= 1,
    decreases s.len(),
{
    if s.len() > 0 {
        lemma_split_dots_len(s.drop_first());
    }
}

/// One target's resolution against the finished tree.
#[verifier::loop_isolation(false)]
fn resolve_target_exec<'a>(links: &Vec<ChainLink<'a>>, root: &StateNode, target: &String) -> (r:
    Result<Vec<String>, ParseError>)
    ensures
        match r {
            Ok(p) => resolve_target(root@, link_models(links@), target@) == Ok::<
                Seq<Seq<char>>,
                ErrModel,
            >(path_model(p@)),
            Err(e) => resolve_target(root@, link_models(links@), target@) == Err::<
                Seq<Seq<char>>,
                ErrModel,
            >(e@),
        },
{
    let tchars = chars_of(target.as_str());
    if is_qualified_exec(&tchars) {
        let segs = split_target(&tchars);
        let ghost segs_s = path_model(segs@);
        proof {
            lemma_split_dots_len(tchars@.drop_first());
        }
        proof {
            assert(segs_s[0] == segs@[0]@);
        }
        if !segs[0].eq(&root.id) {
            return Err(ParseError::UnresolvedReference { name: segs[0].clone() });
        }
        let mut cur: &StateNode = root;
        let mut i: usize = 1;
        while i < segs.len()
            invariant
                1 <= i <= segs@.len(),
                segs_s == path_model(segs@),
                segs_s.len() == segs@.len(),
                walk_segs(root@, segs_s, 1) == walk_segs(cur@, segs_s, i as int),
            decreases segs@.len() - i,
        {
            proof {
                assert(segs_s[i as int] == segs@[i as int]@);
                lemma_state_models(cur.states@);
            }
            match find_child_exec(&cur.states, &segs[i]) {
                Some(j) => {
                    proof {
                        assert(state_models(cur.states@)[j as int] == cur.states@[j as int]@);
                    }
                    cur = &cur.states[j];
                },
                None => {
                    proof {
                        assert(walk_segs(cur@, segs_s, i as int) == Err::<(), Seq<char>>(
                            segs_s[i as int],
                        ));
                        assert(tchars@ == target@);
                        assert(segs_s == split_dots(target@.drop_first()));
                        assert(is_qualified(target@));
                        assert(segs_s[0] == root@.id);
                        assert(resolve_qualified(root@, target@) == Err::<
                            Seq<Seq<char>>,
                            Seq<char>,
                        >(segs_s[i as int]));
                    }
                    return Err(ParseError::UnresolvedReference { name: segs[i].clone() });
                },
            }
            i = i + 1;
        }
        Ok(segs)
    } else {
        match search_exec(links, &root.id, target) {
            Some(p) => Ok(p),
            None => Err(ParseError::UnresolvedReference { name: target.clone() }),
        }
    }
}

/// Resolves the subtree at `n`; `links` is its live scope chain and is
/// left as it was found, also on failure.
#[verifier::loop_isolation(false)]
fn resolve_state<'a>(
    n: &'a StateNode,
    path: &Vec<String>,
    links: &mut Vec<ChainLink<'a>>,
    root: &StateNode,
) -> (r: Result<StateNode, ParseError>)
    ensures
        final(links)@ == old(links)@,
        match r {
            Ok(m) => resolve_node(n@, path_model(path@), link_models(old(links)@), root@)
                matches Ok(mm) && mm == m@,
            Err(e) => resolve_node(n@, path_model(path@), link_models(old(links)@), root@)
                matches Err(em) && em == e@,
        },
    decreases *n,
{
    let ghost ch = link_models(links@);
    let ghost oms = trans_models(n.on@);
    let mut on2: Vec<TransitionNode> = Vec::new();
    let mut i: usize = 0;
    while i < n.on.len()
        invariant
            i <= n.on@.len(),
            links@ == old(links)@,
            ch == link_models(links@),
            oms == trans_models(n.on@),
            oms.len() == n.on@.len(),
            match resolve_on(oms, i as int, root@, ch) {
                Ok(rest) => resolve_on(oms, 0, root@, ch) == Ok::<Seq<TransModel>, ErrModel>(
                    trans_models(on2@) + rest,
                ),
                Err(e) => resolve_on(oms, 0, root@, ch) == Err::<Seq<TransModel>, ErrModel>(e),
            },
        decreases n.on@.len() - i,
    {
        let ghost pre = trans_models(on2@);
        let t = &n.on[i];
        proof {
            assert(oms[i as int] == n.on@[i as int]@);
        }
        match resolve_target_exec(links, root, &t.target) {
            Err(e) => {
                return Err(e);
            },
            Ok(p) => {
                let t2 = TransitionNode {
                    source: t.source.clone(),
                    target: t.target.clone(),
                    resolved: Some(p),
                    cond: dup_opt_string(&t.cond),
                    action: dup_opt_string(&t.action),
                };
                on2.push(t2);
                proof {
                    let ghost rp = resolve_target(root@, ch, oms[i as int].target)->Ok_0;
                    assert(trans_models(on2@) =~= pre.push(
                        TransModel {
                            source: oms[i as int].source,
                            target: oms[i as int].target,
                            resolved: Some(rp),
                            cond: oms[i as int].cond,
                            action: oms[i as int].action,
                        },
                    ));
                    match resolve_on(oms, i + 1, root@, ch) {
                        Ok(rest2) => {
                            assert(pre + (seq![
                                TransModel {
                                    source: oms[i as int].source,
                                    target: oms[i as int].target,
                                    resolved: Some(rp),
                                    cond: oms[i as int].cond,
                                    action: oms[i as int].action,
                                },
                            ] + rest2) =~= trans_models(on2@) + rest2);
                        },
                        Err(_) => {},
                    }
                }
            },
        }
        i = i + 1;
    }
    proof {
        assert(trans_models(on2@) =~= trans_models(on2@) + Seq::<TransModel>::empty());
    }
    let ghost on2s = trans_models(on2@);
    proof {
        assert(on2s + Seq::<TransModel>::empty() =~= on2s);
        assert(resolve_on(oms, 0, root@, ch) == Ok::<Seq<TransModel>, ErrModel>(on2s));
    }
    let link = ChainLink { path: dup_path(path), states: &n.states };
    let ghost links0 = links@;
    proof {
        assert(links0 == old(links)@);
    }
    links.push(link);
    let ghost links1 = links@;
    let ghost ch2 = link_models(links@);
    let ghost sms = state_models(n.states@);
    let ghost ppath = path_model(path@);
    proof {
        assert(links1.drop_last() =~= links0);
        assert(ch2 =~= ch.push(ChainEntry { path: ppath, states: sms }));
        lemma_state_models(n.states@);
    }
    let mut kids2: Vec<StateNode> = Vec::new();
    let mut k: usize = 0;
    while k < n.states.len()
        invariant
            k <= n.states@.len(),
            links@ == links1,
            links1.drop_last() == links0,
            links0 == old(links)@,
            ch2 == link_models(links@),
            ch == link_models(links0),
            oms == trans_models(n.on@),
            trans_models(on2@) == on2s,
            resolve_on(oms, 0, root@, ch) == Ok::<Seq<TransModel>, ErrModel>(on2s),
            ppath == path_model(path@),
            sms == state_models(n.states@),
            sms.len() == n.states@.len(),
            forall|j: int| 0 <= j < n.states@.len() ==> sms[j] == n.states@[j]@,
            match resolve_kids(sms, k as int, ppath, ch2, root@) {
                Ok(rest) => resolve_kids(sms, 0, ppath, ch2, root@) == Ok::<
                    Seq<StateModel>,
                    ErrModel,
                >(state_models(kids2@) + rest),
                Err(e) => resolve_kids(sms, 0, ppath, ch2, root@) == Err::<
                    Seq<StateModel>,
                    ErrModel,
                >(e),
            },
        decreases n.states@.len() - k,
    {
        let ghost pre = state_models(kids2@);
        let mut cpath = dup_path(path);
        cpath.push(n.states[k].id.clone());
        proof {
            assert(path_model(cpath@) =~= ppath.push(sms[k as int].id));
        }
        match resolve_state(&n.states[k], &cpath, links, root) {
            Err(e) => {
                proof {
                    assert(resolve_node(sms[k as int], ppath.push(sms[k as int].id), ch2, root@)
                        == Err::<StateModel, ErrModel>(e@));
                    assert(resolve_kids(sms, k as int, ppath, ch2, root@) == Err::<
                        Seq<StateModel>,
                        ErrModel,
                    >(e@));
                    assert(resolve_kids(sms, 0, ppath, ch2, root@) == Err::<
                        Seq<StateModel>,
                        ErrModel,
                    >(e@));
                }
                let _dropped = links.pop();
                proof {
                    assert(links@ =~= links0);
                    assert(links@ == old(links)@);
                    assert(resolve_node(n@, path_model(path@), link_models(old(links)@), root@)
                        == Err::<StateModel, ErrModel>(e@));
                }
                return Err(e);
            },
            Ok(m) => {
                proof {
                    lemma_state_models_push(kids2@, m);
                }
                kids2.push(m);
                proof {
                    let mm = resolve_node(sms[k as int], ppath.push(sms[k as int].id), ch2, root@)->Ok_0;
                    match resolve_kids(sms, k + 1, ppath, ch2, root@) {
                        Ok(rest2) => {
                            assert(pre + (seq![mm] + rest2) =~= state_models(kids2@) + rest2);
                        },
                        Err(_) => {},
                    }
                }
            },
        }
        k = k + 1;
    }
    proof {
        assert(state_models(kids2@) =~= state_models(kids2@) + Seq::<StateModel>::empty());
    }
    let _dropped = links.pop();
    proof {
        assert(links@ =~= links0);
        assert(links@ == old(links)@);
    }
    Ok(
        StateNode {
            id: n.id.clone(),
            typ: n.typ,
            initial: dup_opt_string(&n.initial),
            is_initial: n.is_initial,
            on: on2,
            states: kids2,
        },
    )
}

/// The resolver: erases any earlier resolution, adds the stub siblings
/// the tree asks for, and computes every transition's resolved path;
/// exactly what [`spec_resolve`] ascribes to the tree, or exactly its
/// first failure.
pub fn resolve(root: &StateNode) -> (r: Result<StateNode, ParseError>)
    ensures
        match r {
            Ok(m) => spec_resolve(root@) matches Ok(mm) && mm == m@,
            Err(e) => spec_resolve(root@) matches Err(em) && em == e@,
        },
{
    let t0 = erase_state(root);
    let rid = t0.id.clone();
    let mut path0: Vec<String> = Vec::new();
    path0.push(t0.id.clone());
    proof {
        assert(path_model(path0@) =~= seq![t0@.id]);
    }
    let mut links: Vec<ChainLink> = Vec::new();
    let mut out: Vec<(Vec<String>, String)> = Vec::new();
    proof {
        assert(link_models(links@) =~= Seq::<ChainEntry>::empty());
        assert(stub_models(out@) =~= Seq::<StubReq>::empty());
    }
    collect_node(&t0, &path0, &mut links, &rid, &mut out);
    proof {
        assert(Seq::<StubReq>::empty() + root_stubs(t0@) =~= root_stubs(t0@));
    }
    let t2 = apply_state(&t0, &path0, &out);
    let mut path2: Vec<String> = Vec::new();
    path2.push(t2.id.clone());
    proof {
        assert(path_model(path2@) =~= seq![t2@.id]);
        assert(t2@.id == t0@.id);
    }
    let mut links2: Vec<ChainLink> = Vec::new();
    proof {
        assert(link_models(links2@) =~= Seq::<ChainEntry>::empty());
    }
    match resolve_state(&t2, &path2, &mut links2, &t2) {
        Err(e) => Err(e),
        Ok(m) => Ok(m),
    }
}

} // verus!
