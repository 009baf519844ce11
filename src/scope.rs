use vstd::prelude::*;
use crate::ast::{Condition, Expression, Rewrite, Statement, Terminal, deref_all, terms};
use crate::parse_tools::{RoleConflict, holes_correspond, is_first_conflict, roles_consistent};

verus! {

pub open spec fn opt_terms(e: Option<Expression>) -> Seq<Terminal> {
    match e {
        Some(x) => terms(x),
        None => seq![],
    }
}

/// The terminals of both sides of each condition, in order.
pub open spec fn condition_terms(cs: Seq<Condition>) -> Seq<Terminal>
    decreases cs.len(),
{
    if cs.len() == 0 {
        seq![]
    } else {
        condition_terms(cs.drop_last()) + terms(cs.last().0) + terms(cs.last().1)
    }
}

/// The terminals of each term, in order.
pub open spec fn list_terms(es: Seq<Expression>) -> Seq<Terminal>
    decreases es.len(),
{
    if es.len() == 0 {
        seq![]
    } else {
        list_terms(es.drop_last()) + terms(es.last())
    }
}

pub open spec fn rewrite_scope(rw: Rewrite) -> Seq<Terminal> {
    match rw {
        Rewrite::DRewrite(p, s, d, cs) => opt_terms(p) + terms(s) + terms(d) + condition_terms(cs@),
        Rewrite::BRewrite(p, s, d, cs) => opt_terms(p) + terms(s) + terms(d) + condition_terms(cs@),
        Rewrite::AddSearcher(p, s, d, cs) => opt_terms(p) + terms(s) + terms(d) + condition_terms(
            cs@,
        ),
    }
}

/// The validation scope of a statement: the terminals of every term it
/// holds, in order, not counting those inside annotations. Names of
/// parameters, of datatypes and of constructors are no terminals.
pub open spec fn statement_scope(s: Statement) -> Seq<Terminal> {
    match s {
        Statement::RewriteDef(_, rw) => rewrite_scope(rw),
        Statement::Function(_, _, _, body) => opt_terms(body),
        Statement::Datatype(_, _, _) => seq![],
        Statement::Goal(p, l, r) => opt_terms(p) + terms(l) + terms(r),
        Statement::CaseSplit(s, t, reps, cs) => terms(s) + terms(t) + list_terms(reps@)
            + condition_terms(cs@),
    }
}

fn append_terms<'a>(r: &mut Vec<&'a Terminal>, e: &'a Expression)
    ensures
        deref_all(final(r)@) == deref_all(old(r)@) + terms(*e),
{
    let mut ts = e.terminals();
    let ghost prev = r@;
    r.append(&mut ts);
    assert(deref_all(r@) =~= deref_all(prev) + terms(*e));
}

fn append_opt_terms<'a>(r: &mut Vec<&'a Terminal>, e: &'a Option<Expression>)
    ensures
        deref_all(final(r)@) == deref_all(old(r)@) + opt_terms(*e),
{
    match e {
        Some(x) => append_terms(r, x),
        None => {
            assert(deref_all(r@) + opt_terms(*e) =~= deref_all(r@));
        },
    }
}

fn append_condition_terms<'a>(r: &mut Vec<&'a Terminal>, cs: &'a Vec<Condition>)
    ensures
        deref_all(final(r)@) == deref_all(old(r)@) + condition_terms(cs@),
{
    let ghost start = deref_all(r@);
    let mut i: usize = 0;
    assert(cs@.subrange(0, 0) =~= seq![]);
    assert(deref_all(r@) =~= start + condition_terms(cs@.subrange(0, 0)));
    while i < cs.len()
        invariant
            i <= cs.len(),
            deref_all(r@) == start + condition_terms(cs@.subrange(0, i as int)),
        decreases cs.len() - i,
    {
        append_terms(r, &cs[i].0);
        append_terms(r, &cs[i].1);
        proof {
            let next = cs@.subrange(0, i as int + 1);
            assert(next.drop_last() =~= cs@.subrange(0, i as int));
            assert(deref_all(r@) =~= start + condition_terms(next));
        }
        i = i + 1;
    }
    assert(cs@.subrange(0, cs.len() as int) =~= cs@);
}

fn append_list_terms<'a>(r: &mut Vec<&'a Terminal>, es: &'a Vec<Expression>)
    ensures
        deref_all(final(r)@) == deref_all(old(r)@) + list_terms(es@),
{
    let ghost start = deref_all(r@);
    let mut i: usize = 0;
    assert(es@.subrange(0, 0) =~= seq![]);
    assert(deref_all(r@) =~= start + list_terms(es@.subrange(0, 0)));
    while i < es.len()
        invariant
            i <= es.len(),
            deref_all(r@) == start + list_terms(es@.subrange(0, i as int)),
        decreases es.len() - i,
    {
        append_terms(r, &es[i]);
        proof {
            let next = es@.subrange(0, i as int + 1);
            assert(next.drop_last() =~= es@.subrange(0, i as int));
            assert(deref_all(r@) =~= start + list_terms(next));
        }
        i = i + 1;
    }
    assert(es@.subrange(0, es.len() as int) =~= es@);
}

/// The terminals of a statement's validation scope.
pub fn statement_terminals(s: &Statement) -> (r: Vec<&Terminal>)
    ensures
        deref_all(r@) == statement_scope(*s),
{
    let mut r: Vec<&Terminal> = Vec::new();
    assert(deref_all(r@) =~= seq![]);
    match s {
        Statement::RewriteDef(_, rw) => match rw {
            Rewrite::DRewrite(p, src, d, cs) | Rewrite::BRewrite(p, src, d, cs) | Rewrite::AddSearcher(
                p,
                src,
                d,
                cs,
            ) => {
                append_opt_terms(&mut r, p);
                append_terms(&mut r, src);
                append_terms(&mut r, d);
                append_condition_terms(&mut r, cs);
            },
        },
        Statement::Function(_, _, _, body) => {
            append_opt_terms(&mut r, body);
        },
        Statement::Datatype(_, _, _) => {},
        Statement::Goal(p, lhs, rhs) => {
            append_opt_terms(&mut r, p);
            append_terms(&mut r, lhs);
            append_terms(&mut r, rhs);
        },
        Statement::CaseSplit(searcher, target, reps, cs) => {
            append_terms(&mut r, searcher);
            append_terms(&mut r, target);
            append_list_terms(&mut r, reps);
            append_condition_terms(&mut r, cs);
        },
    }
    assert(deref_all(r@) =~= statement_scope(*s));
    r
}

/// Checks the role of every name over the statement's validation scope.
pub fn check_statement(s: &Statement) -> (r: Result<(), RoleConflict>)
    ensures
        r is Ok <==> roles_consistent(statement_scope(*s)),
        r matches Err(c) ==> exists|j: int|
            is_first_conflict(statement_scope(*s), j) && c.name@ == (
            #[trigger] statement_scope(*s)[j]).name(),
{
    let ts = statement_terminals(s);
    holes_correspond(&ts)
}

} // verus!
