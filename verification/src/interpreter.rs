//! The interpreter: a post-order walk of the syntax tree that binds each
//! assigned variable to a 64-bit signed integer.
//!
//! Arithmetic uses two's-complement wrapping on `i64`: overflow wraps, by
//! design, rather than depending on build configuration. A read of a
//! variable that no assignment has bound yet reports a diagnostic and
//! evaluates to zero, so one pass surfaces every such use. Later
//! assignments to a name overwrite earlier ones; the bindings keep
//! first-assignment order, which makes reporting deterministic.

use vstd::prelude::*;
use vstd::string::StringSliceAdditionalSpecFns;
use crate::error::{DiagnosticError, SDiag};
use crate::messages::{msg_uninitialized, fmt_uninitialized};
use crate::node::{Node, SNode, Operator, wf_expr, wf_stmt, wf_program, nodes_view, node_view,
    lemma_nodes_view_index};
use crate::util::{linebreak_index, spec_linebreak_index};

verus! {

/// The bindings as a mathematical sequence of (name, value) pairs, in
/// first-assignment order.
pub open spec fn env_view(v: Seq<(Vec<u8>, i64)>) -> Seq<(Seq<u8>, i64)> {
    v.map_values(|p: (Vec<u8>, i64)| (p.0@, p.1))
}

/// The value bound to `name`, if any.
pub open spec fn env_lookup(env: Seq<(Seq<u8>, i64)>, name: Seq<u8>) -> Option<i64>
    decreases env.len(),
{
    if env.len() == 0 {
        None
    } else if env[0].0 == name {
        Some(env[0].1)
    } else {
        env_lookup(env.drop_first(), name)
    }
}

/// Binding `name` to `value`: the first pair with that name is replaced in
/// place, or a new pair is appended.
pub open spec fn env_insert(env: Seq<(Seq<u8>, i64)>, name: Seq<u8>, value: i64) -> Seq<
    (Seq<u8>, i64),
>
    decreases env.len(),
{
    if env.len() == 0 {
        seq![(name, value)]
    } else if env[0].0 == name {
        seq![(name, value)] + env.drop_first()
    } else {
        seq![env[0]] + env_insert(env.drop_first(), name, value)
    }
}

/// The wrapped result of a binary operation on two `i64` values.
pub open spec fn apply_op(op: Operator, l: i64, r: i64) -> i64 {
    match op {
        Operator::Plus => vstd::wrapping::i64_specs::wrapping_add(l, r),
        Operator::Minus => vstd::wrapping::i64_specs::wrapping_sub(l, r),
        Operator::Multiply => vstd::wrapping::i64_specs::wrapping_mul(l, r),
    }
}

/// Evaluating an expression-shaped subtree under `env`: its value and the
/// uninitialized-variable diagnostics it raises, in source order. Both
/// operands of a binary node are evaluated even when one raises a
/// diagnostic, and an unbound read counts as zero.
pub open spec fn sp_eval_expr(src: Seq<u8>, n: SNode, env: Seq<(Seq<u8>, i64)>) -> (i64, Seq<
    SDiag,
>)
    decreases n,
{
    match n {
        SNode::Expression(e) => sp_eval_expr(src, *e, env),
        SNode::Fact(e) => sp_eval_expr(src, *e, env),
        SNode::Term(l, op, r) => {
            let (lv, ld) = sp_eval_expr(src, *l, env);
            let (rv, rd) = sp_eval_expr(src, *r, env);
            (apply_op(op, lv, rv), ld + rd)
        },
        SNode::UnaryOperator(op, e) => {
            let (v, d) = sp_eval_expr(src, *e, env);
            (if op == Operator::Minus { vstd::wrapping::i64_specs::wrapping_sub(0, v) } else { v }, d)
        },
        SNode::Identifier { name, start, end: _, line } => {
            match env_lookup(env, name) {
                Some(v) => (v, Seq::empty()),
                None => (
                    0,
                    seq![SDiag {
                        msg: msg_uninitialized(name),
                        line,
                        col: start + 1 - spec_linebreak_index(src, start),
                    }],
                ),
            }
        },
        SNode::Literal(v) => (v, Seq::empty()),
        SNode::Program(_) => (0, Seq::empty()),
        SNode::Assignment(_, _) => (0, Seq::empty()),
    }
}

/// Evaluating one assignment: the expression's value is bound to the
/// identifier's name, overwriting any earlier binding.
pub open spec fn sp_eval_stmt(src: Seq<u8>, n: SNode, env: Seq<(Seq<u8>, i64)>) -> (Seq<
    (Seq<u8>, i64),
>, Seq<SDiag>) {
    match n {
        SNode::Assignment(id, e) => {
            let (v, d) = sp_eval_expr(src, *e, env);
            match *id {
                SNode::Identifier { name, .. } => (env_insert(env, name, v), d),
                _ => (env, d),
            }
        },
        _ => (env, Seq::empty()),
    }
}

/// Evaluating assignments in source order, accumulating bindings and
/// diagnostics.
pub open spec fn sp_eval_stmts(src: Seq<u8>, stmts: Seq<SNode>, env: Seq<(Seq<u8>, i64)>) -> (Seq<
    (Seq<u8>, i64),
>, Seq<SDiag>)
    decreases stmts.len(),
{
    if stmts.len() == 0 {
        (env, Seq::empty())
    } else {
        let (e1, d1) = sp_eval_stmt(src, stmts[0], env);
        let (e2, d2) = sp_eval_stmts(src, stmts.drop_first(), e1);
        (e2, d1 + d2)
    }
}

/// Evaluating a whole program from `env`.
pub open spec fn sp_eval_program(src: Seq<u8>, n: SNode, env: Seq<(Seq<u8>, i64)>) -> (Seq<
    (Seq<u8>, i64),
>, Seq<SDiag>) {
    match n {
        SNode::Program(stmts) => sp_eval_stmts(src, stmts, env),
        _ => (env, Seq::empty()),
    }
}

// Compares two byte strings.
fn bytes_eq(a: &[u8], b: &[u8]) -> (r: bool)
    ensures
        r == (a@ == b@),
{
    if a.len() != b.len() {
        return false;
    }
    let mut i: usize = 0;
    while i < a.len()
        invariant
            0 <= i <= a@.len(),
            a@.len() == b@.len(),
            forall|j: int| 0 <= j < i ==> a@[j] == b@[j],
        decreases a@.len() - i,
    {
        if a[i] != b[i] {
            return false;
        }
        i = i + 1;
    }
    proof {
        assert(a@ =~= b@);
    }
    true
}

// Looks a name up in the bindings.
fn env_get(vars: &Vec<(Vec<u8>, i64)>, name: &[u8]) -> (r: Option<i64>)
    ensures
        r == env_lookup(env_view(vars@), name@),
{
    let mut i: usize = 0;
    proof {
        assert(env_view(vars@).skip(0) =~= env_view(vars@));
    }
    while i < vars.len()
        invariant
            0 <= i <= vars@.len(),
            env_lookup(env_view(vars@), name@)
                == env_lookup(env_view(vars@).skip(i as int), name@),
        decreases vars@.len() - i,
    {
        proof {
            assert(env_view(vars@).skip(i as int)[0] == (vars@[i as int].0@, vars@[i as int].1));
            assert(env_view(vars@).skip(i as int).drop_first()
                =~= env_view(vars@).skip(i as int + 1));
        }
        if bytes_eq(vars[i].0.as_slice(), name) {
            return Some(vars[i].1);
        }
        i = i + 1;
    }
    proof {
        assert(env_view(vars@).skip(vars@.len() as int) =~= Seq::<(Seq<u8>, i64)>::empty());
    }
    None
}

/// Replacing the first pair whose name matches replaces it in the view.
proof fn lemma_env_insert_update(env: Seq<(Seq<u8>, i64)>, name: Seq<u8>, value: i64, i: int)
    requires
        0 <= i < env.len(),
        env[i].0 == name,
        forall|j: int| 0 <= j < i ==> (#[trigger] env[j]).0 != name,
    ensures
        env_insert(env, name, value) =~= env.update(i, (name, value)),
    decreases i,
{
    if i == 0 {
        assert(env_insert(env, name, value) == seq![(name, value)] + env.drop_first());
    } else {
        lemma_env_insert_update(env.drop_first(), name, value, i - 1);
        assert(env[0].0 != name);
        assert(env_insert(env, name, value)
            == seq![env[0]] + env_insert(env.drop_first(), name, value));
        assert(env.drop_first().update(i - 1, (name, value)) =~= env.update(i, (name, value)).drop_first());
    }
}

/// Binding a fresh name appends it.
proof fn lemma_env_insert_append(env: Seq<(Seq<u8>, i64)>, name: Seq<u8>, value: i64)
    requires
        forall|j: int| 0 <= j < env.len() ==> (#[trigger] env[j]).0 != name,
    ensures
        env_insert(env, name, value) =~= env.push((name, value)),
    decreases env.len(),
{
    if env.len() > 0 {
        lemma_env_insert_append(env.drop_first(), name, value);
        assert(env.drop_first().push((name, value)) =~= env.push((name, value)).drop_first());
    }
}

// Binds `name` to `value`, overwriting the first earlier binding of the
// same name or appending a new pair.
fn env_set(vars: &mut Vec<(Vec<u8>, i64)>, name: Vec<u8>, value: i64)
    ensures
        env_view(final(vars)@) == env_insert(env_view(old(vars)@), name@, value),
{
    let mut i: usize = 0;
    while i < vars.len()
        invariant
            0 <= i <= vars@.len(),
            vars@ == old(vars)@,
            forall|j: int| 0 <= j < i ==> (#[trigger] env_view(vars@)[j]).0 != name@,
        decreases vars@.len() - i,
    {
        if bytes_eq(vars[i].0.as_slice(), name.as_slice()) {
            proof {
                lemma_env_insert_update(env_view(vars@), name@, value, i as int);
            }
            vars[i] = (name, value);
            proof {
                assert(env_view(vars@)
                    =~= env_view(old(vars)@).update(i as int, (name@, value)));
            }
            return;
        }
        i = i + 1;
    }
    proof {
        lemma_env_insert_append(env_view(vars@), name@, value);
    }
    vars.push((name, value));
    proof {
        assert(env_view(vars@) =~= env_view(old(vars)@).push((name@, value)));
    }
}

/// Evaluates `node` under the bindings so far, appending any diagnostics:
/// an expression leaves the bindings unchanged and returns its value; an
/// assignment binds its identifier; a program evaluates its assignments in
/// source order. The returned value of assignments and programs is zero.
#[verifier::rlimit(100)]
pub fn evaluate_node(
    src: &[u8],
    node: &Node,
    variables: &mut Vec<(Vec<u8>, i64)>,
    errors: &mut Vec<DiagnosticError>,
) -> (r: i64)
    requires
        src@.len() < usize::MAX,
        wf_expr(src@, node@) || wf_stmt(src@, node@),
    ensures
        wf_expr(src@, node@) ==> ({
            let (v, d) = sp_eval_expr(src@, node@, env_view(old(variables)@));
            &&& final(variables)@ == old(variables)@
            &&& r == v
            &&& final(errors)@.map_values(|x: DiagnosticError| x@)
                == old(errors)@.map_values(|x: DiagnosticError| x@) + d
        }),
        wf_stmt(src@, node@) ==> ({
            let (env2, d) = sp_eval_stmt(src@, node@, env_view(old(variables)@));
            &&& env_view(final(variables)@) == env2
            &&& final(errors)@.map_values(|x: DiagnosticError| x@)
                == old(errors)@.map_values(|x: DiagnosticError| x@) + d
        }),
    decreases node,
{
    let ghost em0 = errors@.map_values(|x: DiagnosticError| x@);
    match node {
        Node::Program(_) => {
            proof {
                assert(!wf_expr(src@, node@) && !wf_stmt(src@, node@));
                assert(false);
            }
            0
        },
        Node::Assignment(var_node, expr) => {
            match &**var_node {
                Node::Identifier(ident_node) => {
                    proof {
                        assert(node_view(**var_node) == (SNode::Identifier {
                            name: ident_node.literal@,
                            start: ident_node.range.start as int,
                            end: ident_node.range.end as int,
                            line: ident_node.line as int,
                        }));
                        assert(decreases_to!(*node => *expr));
                    }
                    let rhs = evaluate_node(src, expr, variables, errors);
                    let key = vstd::slice::slice_to_vec(ident_node.literal.as_slice());
                    env_set(variables, key, rhs);
                },
                _ => {
                    proof {
                        assert(wf_stmt(src@, node@));
                        let gv = **var_node;
                        assert(node_view(gv) is Identifier);
                        match gv {
                            Node::Identifier(_) => {},
                            Node::Program(_) => assert(!(node_view(gv) is Identifier)),
                            Node::Assignment(_, _) => assert(!(node_view(gv) is Identifier)),
                            Node::Expression(_) => assert(!(node_view(gv) is Identifier)),
                            Node::Term(_, _, _) => assert(!(node_view(gv) is Identifier)),
                            Node::Fact(_) => assert(!(node_view(gv) is Identifier)),
                            Node::UnaryOperator(_, _) => assert(!(node_view(gv) is Identifier)),
                            Node::Literal(_) => assert(!(node_view(gv) is Identifier)),
                        }
                        assert(false);
                    }
                },
            }
            0
        },
        Node::Expression(e) => evaluate_node(src, e, variables, errors),
        Node::Fact(e) => evaluate_node(src, e, variables, errors),
        Node::Term(l, op, r) => {
            let lv = evaluate_node(src, l, variables, errors);
            let rv = evaluate_node(src, r, variables, errors);
            proof {
                let (lvs, ld) = sp_eval_expr(src@, node_view(**l), env_view(old(variables)@));
                let (rvs, rd) = sp_eval_expr(src@, node_view(**r), env_view(old(variables)@));
                assert((em0 + ld) + rd =~= em0 + (ld + rd));
            }
            match op {
                Operator::Plus => lv.wrapping_add(rv),
                Operator::Minus => lv.wrapping_sub(rv),
                Operator::Multiply => lv.wrapping_mul(rv),
            }
        },
        Node::UnaryOperator(op, e) => {
            let v = evaluate_node(src, e, variables, errors);
            match op {
                Operator::Minus => (0i64).wrapping_sub(v),
                Operator::Plus => v,
                Operator::Multiply => {
                    proof {
                        assert(false);
                    }
                    0
                },
            }
        },
        Node::Identifier(ident_node) => {
            match env_get(variables, ident_node.literal.as_slice()) {
                Some(v) => v,
                None => {
                    let range = ident_node.range.start..ident_node.range.end;
                    let lb = linebreak_index(src, ident_node.range.start..ident_node.range.end);
                    errors.push(DiagnosticError::new(
                        fmt_uninitialized(ident_node.literal.as_slice()),
                        ident_node.line,
                        range.start + 1 - lb,
                    ));
                    proof {
                        assert(errors@.map_values(|x: DiagnosticError| x@)
                            =~= em0 + sp_eval_expr(
                                src@,
                                node@,
                                env_view(old(variables)@),
                            ).1);
                    }
                    0
                },
            }
        },
        Node::Literal(lit) => lit.value,
    }
}


/// Whether a node is an assignment with an identifier on its left.
pub open spec fn is_identifier_assignment(n: SNode) -> bool {
    n matches SNode::Assignment(id, _) && *id matches SNode::Identifier { .. }
}

/// The name an assignment binds.
pub open spec fn stmt_name(n: SNode) -> Seq<u8> {
    match n {
        SNode::Assignment(id, _) => match *id {
            SNode::Identifier { name, .. } => name,
            _ => Seq::empty(),
        },
        _ => Seq::empty(),
    }
}

/// Looking up a name right after binding it finds the bound value.
pub proof fn lemma_lookup_insert_same(env: Seq<(Seq<u8>, i64)>, name: Seq<u8>, value: i64)
    ensures
        env_lookup(env_insert(env, name, value), name) == Some(value),
    decreases env.len(),
{
    if env.len() > 0 && env[0].0 != name {
        lemma_lookup_insert_same(env.drop_first(), name, value);
        assert((seq![env[0]] + env_insert(env.drop_first(), name, value)).drop_first()
            =~= env_insert(env.drop_first(), name, value));
    }
}

/// Binding one name leaves every other name's binding unchanged.
pub proof fn lemma_lookup_insert_other(
    env: Seq<(Seq<u8>, i64)>,
    name: Seq<u8>,
    other: Seq<u8>,
    value: i64,
)
    requires
        other != name,
    ensures
        env_lookup(env_insert(env, name, value), other) == env_lookup(env, other),
    decreases env.len(),
{
    if env.len() == 0 {
        assert(env_insert(env, name, value) == seq![(name, value)]);
        assert(seq![(name, value)].drop_first() =~= Seq::<(Seq<u8>, i64)>::empty());
        assert(env_lookup(Seq::<(Seq<u8>, i64)>::empty(), other) is None);
    } else {
        if env[0].0 == name {
            assert((seq![(name, value)] + env.drop_first()).drop_first() =~= env.drop_first());
        } else {
            lemma_lookup_insert_other(env.drop_first(), name, other, value);
            assert((seq![env[0]] + env_insert(env.drop_first(), name, value)).drop_first()
                =~= env_insert(env.drop_first(), name, value));
        }
    }
}

/// A name bound before a run of assignments is still bound after it.
pub proof fn lemma_binding_persists(
    src: Seq<u8>,
    stmts: Seq<SNode>,
    env: Seq<(Seq<u8>, i64)>,
    name: Seq<u8>,
)
    requires
        env_lookup(env, name) is Some,
    ensures
        env_lookup(sp_eval_stmts(src, stmts, env).0, name) is Some,
    decreases stmts.len(),
{
    if stmts.len() > 0 {
        let (e1, _d1) = sp_eval_stmt(src, stmts[0], env);
        match stmts[0] {
            SNode::Assignment(id, e) => {
                let (v, _d) = sp_eval_expr(src, *e, env);
                match *id {
                    SNode::Identifier { name: n0, .. } => {
                        if n0 == name {
                            lemma_lookup_insert_same(env, n0, v);
                        } else {
                            lemma_lookup_insert_other(env, n0, name, v);
                        }
                    },
                    _ => {},
                }
            },
            _ => {},
        }
        lemma_binding_persists(src, stmts.drop_first(), e1, name);
    }
}

/// For every program of assignments, evaluation produces a binding for
/// every left-hand-side name: once a name is assigned, the final bindings
/// hold a value for it, whatever the expressions evaluate to.
pub proof fn lemma_every_assigned_name_bound(
    src: Seq<u8>,
    stmts: Seq<SNode>,
    env: Seq<(Seq<u8>, i64)>,
)
    ensures
        forall|i: int|
            0 <= i < stmts.len() && is_identifier_assignment(#[trigger] stmts[i]) ==> env_lookup(
                sp_eval_stmts(src, stmts, env).0,
                stmt_name(stmts[i]),
            ) is Some,
    decreases stmts.len(),
{
    if stmts.len() > 0 {
        let (e1, _d1) = sp_eval_stmt(src, stmts[0], env);
        lemma_every_assigned_name_bound(src, stmts.drop_first(), e1);
        assert forall|i: int|
            0 <= i < stmts.len() && is_identifier_assignment(#[trigger] stmts[i]) implies
            env_lookup(sp_eval_stmts(src, stmts, env).0, stmt_name(stmts[i])) is Some by {
            if i == 0 {
                match stmts[0] {
                    SNode::Assignment(id, e) => {
                        let (v, _d) = sp_eval_expr(src, *e, env);
                        match *id {
                            SNode::Identifier { name: n0, .. } => {
                                lemma_lookup_insert_same(env, n0, v);
                                lemma_binding_persists(src, stmts.drop_first(), e1, n0);
                            },
                            _ => {},
                        }
                    },
                    _ => {},
                }
            } else {
                assert(stmts.drop_first()[i - 1] == stmts[i]);
            }
        }
    }
}


/// The expression an assignment evaluates.
pub open spec fn stmt_expr(n: SNode) -> SNode {
    match n {
        SNode::Assignment(_, e) => *e,
        _ => SNode::Literal(0),
    }
}

/// Whether no two bindings share a name.
pub open spec fn env_distinct(env: Seq<(Seq<u8>, i64)>) -> bool {
    forall|i: int, j: int|
        0 <= i < j < env.len() ==> (#[trigger] env[i]).0 != (#[trigger] env[j]).0
}

/// Every bound name is found by lookup.
proof fn lemma_lookup_present(env: Seq<(Seq<u8>, i64)>, i: int)
    requires
        0 <= i < env.len(),
    ensures
        env_lookup(env, env[i].0) is Some,
    decreases i,
{
    if i > 0 && env[0].0 != env[i].0 {
        lemma_lookup_present(env.drop_first(), i - 1);
    }
}

/// A found name is bound somewhere.
proof fn lemma_lookup_some_means_present(env: Seq<(Seq<u8>, i64)>, name: Seq<u8>)
    requires
        env_lookup(env, name) is Some,
    ensures
        exists|i: int| 0 <= i < env.len() && (#[trigger] env[i]).0 == name,
    decreases env.len(),
{
    if env[0].0 != name {
        lemma_lookup_some_means_present(env.drop_first(), name);
        let i0 = choose|i0: int| 0 <= i0 < env.drop_first().len()
            && (#[trigger] env.drop_first()[i0]).0 == name;
        assert(env[i0 + 1].0 == name);
    }
}

/// After an insert, every bound name is the inserted one or was bound
/// before.
proof fn lemma_env_insert_keys(env: Seq<(Seq<u8>, i64)>, name: Seq<u8>, value: i64)
    ensures
        forall|k: int|
            0 <= k < env_insert(env, name, value).len()
                ==> (#[trigger] env_insert(env, name, value)[k]).0 == name || env_lookup(
                env,
                env_insert(env, name, value)[k].0,
            ) is Some,
    decreases env.len(),
{
    let r = env_insert(env, name, value);
    if env.len() == 0 {
    } else if env[0].0 == name {
        assert forall|k: int| 0 <= k < r.len() implies (#[trigger] r[k]).0 == name || env_lookup(
            env,
            r[k].0,
        ) is Some by {
            if k > 0 {
                assert(r[k] == env[k]);
                lemma_lookup_present(env, k);
            }
        }
    } else {
        lemma_env_insert_keys(env.drop_first(), name, value);
        assert forall|k: int| 0 <= k < r.len() implies (#[trigger] r[k]).0 == name || env_lookup(
            env,
            r[k].0,
        ) is Some by {
            if k == 0 {
                lemma_lookup_present(env, 0);
            } else {
                assert(r[k] == env_insert(env.drop_first(), name, value)[k - 1]);
                if r[k].0 != name {
                    lemma_lookup_some_means_present(env.drop_first(), r[k].0);
                    let i0 = choose|i0: int| 0 <= i0 < env.drop_first().len()
                        && (#[trigger] env.drop_first()[i0]).0 == r[k].0;
                    lemma_lookup_present(env, i0 + 1);
                }
            }
        }
    }
}

/// Inserting keeps binding names distinct.
proof fn lemma_env_insert_distinct(env: Seq<(Seq<u8>, i64)>, name: Seq<u8>, value: i64)
    requires
        env_distinct(env),
    ensures
        env_distinct(env_insert(env, name, value)),
    decreases env.len(),
{
    let r = env_insert(env, name, value);
    if env.len() == 0 {
    } else if env[0].0 == name {
        assert forall|i: int, j: int| 0 <= i < j < r.len() implies (#[trigger] r[i]).0
            != (#[trigger] r[j]).0 by {
            if i == 0 {
                assert(r[j] == env[j]);
            } else {
                assert(r[i] == env[i] && r[j] == env[j]);
            }
        }
    } else {
        lemma_env_insert_distinct(env.drop_first(), name, value);
        lemma_env_insert_keys(env.drop_first(), name, value);
        let rd = env_insert(env.drop_first(), name, value);
        assert forall|i: int, j: int| 0 <= i < j < r.len() implies (#[trigger] r[i]).0
            != (#[trigger] r[j]).0 by {
            if i == 0 {
                assert(r[j] == rd[j - 1]);
                if r[j].0 != name {
                    assert(env_lookup(env.drop_first(), r[j].0) is Some);
                    lemma_lookup_some_means_present(env.drop_first(), r[j].0);
                    let i0 = choose|i0: int| 0 <= i0 < env.drop_first().len()
                        && (#[trigger] env.drop_first()[i0]).0 == r[j].0;
                    assert(env[i0 + 1].0 == r[j].0);
                }
            } else {
                assert(r[i] == rd[i - 1] && r[j] == rd[j - 1]);
            }
        }
    }
}

/// Evaluation keeps binding names distinct.
pub proof fn lemma_eval_preserves_distinct(src: Seq<u8>, stmts: Seq<SNode>, env: Seq<(Seq<u8>, i64)>)
    requires
        env_distinct(env),
    ensures
        env_distinct(sp_eval_stmts(src, stmts, env).0),
    decreases stmts.len(),
{
    if stmts.len() > 0 {
        let (e1, _d1) = sp_eval_stmt(src, stmts[0], env);
        match stmts[0] {
            SNode::Assignment(id, e) => {
                let (v, _d) = sp_eval_expr(src, *e, env);
                match *id {
                    SNode::Identifier { name: n0, .. } => {
                        lemma_env_insert_distinct(env, n0, v);
                    },
                    _ => {},
                }
            },
            _ => {},
        }
        lemma_eval_preserves_distinct(src, stmts.drop_first(), e1);
    }
}

/// A name that no assignment of the run binds keeps its value.
pub proof fn lemma_unassigned_name_keeps_value(
    src: Seq<u8>,
    stmts: Seq<SNode>,
    env: Seq<(Seq<u8>, i64)>,
    name: Seq<u8>,
)
    requires
        forall|k: int|
            0 <= k < stmts.len() ==> !(is_identifier_assignment(#[trigger] stmts[k])
                && stmt_name(stmts[k]) == name),
    ensures
        env_lookup(sp_eval_stmts(src, stmts, env).0, name) == env_lookup(env, name),
    decreases stmts.len(),
{
    if stmts.len() > 0 {
        let (e1, _d1) = sp_eval_stmt(src, stmts[0], env);
        match stmts[0] {
            SNode::Assignment(id, e) => {
                let (v, _d) = sp_eval_expr(src, *e, env);
                match *id {
                    SNode::Identifier { name: n0, .. } => {
                        assert(n0 != name);
                        lemma_lookup_insert_other(env, n0, name, v);
                    },
                    _ => {},
                }
            },
            _ => {},
        }
        assert(forall|k: int|
            0 <= k < stmts.drop_first().len() ==> #[trigger] stmts.drop_first()[k]
                == stmts[k + 1]);
        lemma_unassigned_name_keeps_value(src, stmts.drop_first(), e1, name);
    }
}

/// The value bound to a name is its last assignment's expression,
/// evaluated under the bindings in force just before that assignment.
pub proof fn lemma_last_assignment_wins(
    src: Seq<u8>,
    stmts: Seq<SNode>,
    env: Seq<(Seq<u8>, i64)>,
    k: int,
)
    requires
        0 <= k < stmts.len(),
        is_identifier_assignment(stmts[k]),
        forall|j: int|
            k < j < stmts.len() ==> !(is_identifier_assignment(#[trigger] stmts[j])
                && stmt_name(stmts[j]) == stmt_name(stmts[k])),
    ensures
        env_lookup(sp_eval_stmts(src, stmts, env).0, stmt_name(stmts[k])) == Some(
            sp_eval_expr(src, stmt_expr(stmts[k]), sp_eval_stmts(src, stmts.take(k), env).0).0,
        ),
    decreases stmts.len(),
{
    let (e1, _d1) = sp_eval_stmt(src, stmts[0], env);
    assert(forall|j: int|
        0 <= j < stmts.drop_first().len() ==> #[trigger] stmts.drop_first()[j] == stmts[j + 1]);
    if k == 0 {
        assert(stmts.take(0) =~= Seq::<SNode>::empty());
        match stmts[0] {
            SNode::Assignment(id, e) => {
                let (v, _d) = sp_eval_expr(src, *e, env);
                match *id {
                    SNode::Identifier { name: n0, .. } => {
                        lemma_lookup_insert_same(env, n0, v);
                        lemma_unassigned_name_keeps_value(src, stmts.drop_first(), e1, n0);
                    },
                    _ => {},
                }
            },
            _ => {},
        }
    } else {
        lemma_last_assignment_wins(src, stmts.drop_first(), e1, k - 1);
        assert(stmts.take(k)[0] == stmts[0]);
        assert(stmts.take(k).drop_first() =~= stmts.drop_first().take(k - 1));
    }
}

/// For every program of `name = <expr>;` assignments, evaluation from
/// distinct bindings produces a binding for every distinct left-hand-side
/// name: each assigned name is bound afterwards, no name is bound twice,
/// and a name's value is its last assignment's expression evaluated under
/// the bindings in force just before that assignment — left to right, `*`
/// before `+` and `-`, and unary signs, as [`sp_eval_expr`] defines.
pub proof fn lemma_program_bindings(src: Seq<u8>, stmts: Seq<SNode>, env: Seq<(Seq<u8>, i64)>)
    requires
        env_distinct(env),
    ensures
        forall|i: int|
            0 <= i < stmts.len() && is_identifier_assignment(#[trigger] stmts[i]) ==> env_lookup(
                sp_eval_stmts(src, stmts, env).0,
                stmt_name(stmts[i]),
            ) is Some,
        env_distinct(sp_eval_stmts(src, stmts, env).0),
        forall|k: int|
            0 <= k < stmts.len() && is_identifier_assignment(#[trigger] stmts[k]) && (forall|
                j: int,
            |
                k < j < stmts.len() ==> !(is_identifier_assignment(#[trigger] stmts[j])
                    && stmt_name(stmts[j]) == stmt_name(stmts[k]))) ==> env_lookup(
                sp_eval_stmts(src, stmts, env).0,
                stmt_name(stmts[k]),
            ) == Some(
                sp_eval_expr(
                    src,
                    stmt_expr(stmts[k]),
                    sp_eval_stmts(src, stmts.take(k), env).0,
                ).0,
            ),
{
    lemma_every_assigned_name_bound(src, stmts, env);
    lemma_eval_preserves_distinct(src, stmts, env);
    assert forall|k: int|
        0 <= k < stmts.len() && is_identifier_assignment(#[trigger] stmts[k]) && (forall|j: int|
            k < j < stmts.len() ==> !(is_identifier_assignment(#[trigger] stmts[j])
                && stmt_name(stmts[j]) == stmt_name(stmts[k]))) implies env_lookup(
        sp_eval_stmts(src, stmts, env).0,
        stmt_name(stmts[k]),
    ) == Some(
        sp_eval_expr(src, stmt_expr(stmts[k]), sp_eval_stmts(src, stmts.take(k), env).0).0,
    ) by {
        lemma_last_assignment_wins(src, stmts, env, k);
    }
}

/// The view of a node sequence at one index; a helper for loop invariants.
pub open spec fn node_view_at(s: Seq<Node>, i: int) -> SNode {
    node_view(s[i])
}

/// The interpreter: the source (for diagnostics), the tree, and the
/// bindings built so far, in first-assignment order.
pub struct Interpreter<'a> {
    src: &'a [u8],
    root: Node,
    variables: Vec<(Vec<u8>, i64)>,
}

impl<'a> Interpreter<'a> {
    /// The source bytes.
    pub closed spec fn src_bytes(&self) -> Seq<u8> {
        self.src@
    }

    /// The view of the tree.
    pub closed spec fn root_view(&self) -> SNode {
        self.root@
    }

    /// The bindings, as (name, value) pairs in first-assignment order.
    pub closed spec fn env(&self) -> Seq<(Seq<u8>, i64)> {
        env_view(self.variables@)
    }

    /// Well-formedness: the tree is a well-formed program over the source.
    pub closed spec fn wf(&self) -> bool {
        wf_program(self.src@, self.root@) && self.src@.len() < usize::MAX
    }

    /// Creates an interpreter for a parsed program over its source text,
    /// with no bindings yet. The source is needed for the positions in
    /// uninitialized-variable diagnostics.
    pub fn new(src: &'a str, root: Node) -> (it: Interpreter<'a>)
        requires
            wf_program(src.spec_bytes(), root@),
            src.spec_bytes().len() < usize::MAX,
        ensures
            it.wf(),
            it.src_bytes() == src.spec_bytes(),
            it.root_view() == root@,
            it.env() == Seq::<(Seq<u8>, i64)>::empty(),
    {
        let it = Interpreter { src: src.as_bytes(), root, variables: Vec::new() };
        proof {
            assert(env_view(it.variables@) =~= Seq::<(Seq<u8>, i64)>::empty());
        }
        it
    }

    /// Evaluates the program, updating the bindings.
    ///
    /// Returns `Ok` exactly when no expression read an unbound variable;
    /// otherwise all uninitialized-variable diagnostics, in source order.
    /// The bindings are updated in full either way (fail-slow).
    pub fn evaluate(&mut self) -> (r: Result<(), Vec<DiagnosticError>>)
        requires
            old(self).wf(),
        ensures
            final(self).wf(),
            final(self).src_bytes() == old(self).src_bytes(),
            final(self).root_view() == old(self).root_view(),
            ({
                let (env2, diags) = sp_eval_program(
                    old(self).src_bytes(),
                    old(self).root_view(),
                    old(self).env(),
                );
                &&& final(self).env() == env2
                &&& (match r {
                    Ok(()) => diags.len() == 0,
                    Err(errs) => diags.len() > 0
                        && errs@.map_values(|x: DiagnosticError| x@) == diags,
                })
            }),
    {
        let ghost srcv = self.src@;
        let ghost rootv = self.root@;
        let ghost env0 = env_view(self.variables@);
        let mut errors: Vec<DiagnosticError> = Vec::new();
        proof {
            assert(errors@.map_values(|x: DiagnosticError| x@) =~= Seq::<SDiag>::empty());
        }
        match &self.root {
            Node::Program(nodes) => {
                let ghost stmts = nodes_view(nodes@, 0);
                proof {
                    assert(rootv == SNode::Program(stmts));
                    lemma_nodes_view_index(nodes@, 0);
                    assert(stmts.skip(0) =~= stmts);
                    assert forall|j: int| 0 <= j < stmts.len() implies wf_stmt(
                        srcv,
                        #[trigger] stmts[j],
                    ) by {
                        assert(wf_program(srcv, rootv));
                        assert(rootv->Program_0 == stmts);
                        assert(wf_stmt(srcv, rootv->Program_0[j]));
                    }
                }
                let mut i: usize = 0;
                while i < nodes.len()
                    invariant
                        srcv == self.src@,
                        srcv.len() < usize::MAX,
                        0 <= i <= nodes@.len(),
                        self.root == old(self).root,
                        self.root@ == rootv,
                        (match self.root {
                            Node::Program(ns) => ns@ == nodes@,
                            _ => false,
                        }),
                        stmts == nodes_view(nodes@, 0),
                        stmts.len() == nodes@.len(),
                        forall|j: int| 0 <= j < nodes@.len() ==> stmts[j] == node_view_at(
                            nodes@,
                            j,
                        ),
                        forall|j: int| 0 <= j < stmts.len() ==> wf_stmt(srcv, #[trigger] stmts[j]),
                        ({
                            let (envf, df) = sp_eval_stmts(srcv, stmts, env0);
                            let (envr, dr) = sp_eval_stmts(
                                srcv,
                                stmts.skip(i as int),
                                env_view(self.variables@),
                            );
                            &&& envr == envf
                            &&& errors@.map_values(|x: DiagnosticError| x@) + dr =~= df
                        }),
                    decreases nodes@.len() - i,
                {
                    proof {
                        assert(stmts.skip(i as int)[0] == stmts[i as int]);
                        assert(stmts.skip(i as int).drop_first() =~= stmts.skip(i as int + 1));
                    }
                    let ghost envb = env_view(self.variables@);
                    let ghost emb = errors@.map_values(|x: DiagnosticError| x@);
                    evaluate_node(self.src, &nodes[i], &mut self.variables, &mut errors);
                    proof {
                        let (e1, d1) = sp_eval_stmt(srcv, stmts[i as int], envb);
                        assert(env_view(self.variables@) == e1);
                        assert(errors@.map_values(|x: DiagnosticError| x@) =~= emb + d1);
                        let (er, dr) = sp_eval_stmts(srcv, stmts.skip(i as int + 1), e1);
                        assert((emb + d1) + dr =~= emb + (d1 + dr));
                    }
                    i = i + 1;
                }
                proof {
                    assert(stmts.skip(stmts.len() as int) =~= Seq::<SNode>::empty());
                    assert(errors@.map_values(|x: DiagnosticError| x@) + Seq::<SDiag>::empty()
                        =~= errors@.map_values(|x: DiagnosticError| x@));
                }
            },
            _ => {
                proof {
                    let gv = old(self).root;
                    assert(rootv is Program);
                    match gv {
                        Node::Program(_) => {},
                        Node::Identifier(_) => assert(!(node_view(gv) is Program)),
                        Node::Assignment(_, _) => assert(!(node_view(gv) is Program)),
                        Node::Expression(_) => assert(!(node_view(gv) is Program)),
                        Node::Term(_, _, _) => assert(!(node_view(gv) is Program)),
                        Node::Fact(_) => assert(!(node_view(gv) is Program)),
                        Node::UnaryOperator(_, _) => assert(!(node_view(gv) is Program)),
                        Node::Literal(_) => assert(!(node_view(gv) is Program)),
                    }
                    assert(false);
                }
            },
        }
        if errors.len() == 0 {
            Ok(())
        } else {
            Err(errors)
        }
    }

    /// The bindings built so far: (name, value) pairs in first-assignment
    /// order, for the caller to report.
    pub fn bindings(&self) -> (r: &Vec<(Vec<u8>, i64)>)
        ensures
            env_view(r@) == self.env(),
    {
        &self.variables
    }
}

} // verus!
