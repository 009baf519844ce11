use vstd::prelude::*;
use vstd::string::StringExecFns;
use crate::ast::{Constructor, Identifier, Statement, Terminal, deref_all};

verus! {

/// Two terminals before and at `j` share a name with different roles.
pub open spec fn conflict_at(ts: Seq<Terminal>, j: int) -> bool {
    exists|i: int|
        0 <= i < j && #[trigger] ts[i].name() == ts[j].name() && (ts[i] is Hole) != (ts[j] is Hole)
}

/// Every name of the stream is used with one role only.
pub open spec fn roles_consistent(ts: Seq<Terminal>) -> bool {
    forall|i: int, j: int|
        0 <= i < ts.len() && 0 <= j < ts.len() && #[trigger] ts[i].name() == #[trigger] ts[j].name()
            ==> (ts[i] is Hole) == (ts[j] is Hole)
}

/// The first position of the stream whose terminal conflicts with an earlier one.
pub open spec fn is_first_conflict(ts: Seq<Terminal>, j: int) -> bool {
    &&& 0 <= j < ts.len()
    &&& conflict_at(ts, j)
    &&& forall|k: int| 0 <= k < j ==> !conflict_at(ts, k)
}

/// An identifier used both as a hole and as a plain identifier.
#[derive(Debug, Clone, PartialEq, Eq)]
pub struct RoleConflict {
    pub name: Identifier,
}

pub open spec fn conflict_message(name: Seq<char>) -> Seq<char> {
    "Identifier \""@ + name + "\" is used both as a hole and as a normal id"@
}

impl RoleConflict {
    /// The text reported to the user.
    pub fn message(&self) -> (r: String)
        ensures
            r@ == conflict_message(self.name@),
    {
        let mut r = String::from_str("Identifier \"");
        r.append(self.name.as_str());
        r.append("\" is used both as a hole and as a normal id");
        r
    }
}

/// Whether some string of `v` equals `n`.
fn contains_name(v: &Vec<String>, n: &String) -> (r: bool)
    ensures
        r == exists|k: int| 0 <= k < v.len() && (#[trigger] v@[k])@ == n@,
{
    let mut i: usize = 0;
    while i < v.len()
        invariant
            i <= v.len(),
            forall|k: int| 0 <= k < i ==> (#[trigger] v@[k])@ != n@,
        decreases v.len() - i,
    {
        if v[i] == *n {
            return true;
        }
        i = i + 1;
    }
    false
}

spec fn listed(v: Seq<String>, n: Seq<char>) -> bool {
    exists|k: int| 0 <= k < v.len() && (#[trigger] v[k])@ == n
}

spec fn seen_as(ts: Seq<Terminal>, j: int, hole: bool, n: Seq<char>) -> bool {
    exists|i: int| 0 <= i < j && (ts[i] is Hole) == hole && (#[trigger] ts[i]).name() == n
}

/// Checks that no name of the stream is used both as a hole and as an
/// identifier. On failure it names the terminal at the first position that
/// conflicts with an earlier one. Terminals inside annotations are checked
/// only where the caller puts them in the stream.
pub fn holes_correspond(terminals: &Vec<&Terminal>) -> (r: Result<(), RoleConflict>)
    ensures
        r is Ok <==> roles_consistent(deref_all(terminals@)),
        r matches Err(c) ==> exists|j: int|
            is_first_conflict(deref_all(terminals@), j) && c.name@ == (#[trigger] deref_all(
                terminals@,
            )[j]).name(),
{
    let ghost ts = deref_all(terminals@);
    let mut holes: Vec<String> = Vec::new();
    let mut tems: Vec<String> = Vec::new();
    let mut j: usize = 0;
    while j < terminals.len()
        invariant
            j <= terminals.len(),
            ts == deref_all(terminals@),
            forall|k: int| 0 <= k < j ==> !conflict_at(ts, k),
            forall|n: Seq<char>| #[trigger] listed(holes@, n) == seen_as(ts, j as int, true, n),
            forall|n: Seq<char>| #[trigger] listed(tems@, n) == seen_as(ts, j as int, false, n),
        decreases terminals.len() - j,
    {
        let t = terminals[j];
        let id = t.ident();
        assert(ts[j as int] == *t);
        let hole = t.is_hole();
        let found = if hole {
            contains_name(&tems, id)
        } else {
            contains_name(&holes, id)
        };
        if found {
            let c = RoleConflict { name: id.clone() };
            proof {
                assert(listed(if hole { tems@ } else { holes@ }, id@));
                assert(seen_as(ts, j as int, !hole, id@));
                let i = choose|i: int| 0 <= i < j && (ts[i] is Hole) == !hole && (#[trigger] ts[i]).name() == id@;
                assert(conflict_at(ts, j as int));
                assert(is_first_conflict(ts, j as int));
                assert(!roles_consistent(ts));
            }
            return Err(c);
        }
        let ghost old_holes = holes@;
        let ghost old_tems = tems@;
        proof {
            assert(!conflict_at(ts, j as int)) by {
                if conflict_at(ts, j as int) {
                    let i = choose|i: int| 0 <= i < j && #[trigger] ts[i].name() == ts[j as int].name()
                        && (ts[i] is Hole) != (ts[j as int] is Hole);
                    assert(seen_as(ts, j as int, !hole, id@));
                    if hole {
                        assert(listed(old_tems, id@));
                    } else {
                        assert(listed(old_holes, id@));
                    }
                }
            }
        }
        if hole {
            holes.push(id.clone());
        } else {
            tems.push(id.clone());
        }
        proof {
            assert forall|n: Seq<char>| #[trigger] listed(holes@, n) == seen_as(ts, j + 1, true, n) by {
                if seen_as(ts, j + 1, true, n) {
                    let i = choose|i: int| 0 <= i < j + 1 && (ts[i] is Hole) == true && (#[trigger] ts[i]).name() == n;
                    if i < j {
                        assert(seen_as(ts, j as int, true, n));
                        assert(listed(old_holes, n));
                        let k = choose|k: int| 0 <= k < old_holes.len() && (#[trigger] old_holes[k])@ == n;
                        assert(holes@[k]@ == n);
                    } else {
                        assert(holes@[holes.len() - 1]@ == n);
                    }
                }
                if listed(holes@, n) {
                    let k = choose|k: int| 0 <= k < holes.len() && (#[trigger] holes@[k])@ == n;
                    if hole && k == holes.len() - 1 {
                        assert(ts[j as int].name() == n);
                    } else {
                        assert(old_holes[k] == holes@[k]);
                        assert(listed(old_holes, n));
                    }
                }
            }
            assert forall|n: Seq<char>| #[trigger] listed(tems@, n) == seen_as(ts, j + 1, false, n) by {
                if seen_as(ts, j + 1, false, n) {
                    let i = choose|i: int| 0 <= i < j + 1 && (ts[i] is Hole) == false && (#[trigger] ts[i]).name() == n;
                    if i < j {
                        assert(seen_as(ts, j as int, false, n));
                        assert(listed(old_tems, n));
                        let k = choose|k: int| 0 <= k < old_tems.len() && (#[trigger] old_tems[k])@ == n;
                        assert(tems@[k]@ == n);
                    } else {
                        assert(tems@[tems.len() - 1]@ == n);
                    }
                }
                if listed(tems@, n) {
                    let k = choose|k: int| 0 <= k < tems.len() && (#[trigger] tems@[k])@ == n;
                    if !hole && k == tems.len() - 1 {
                        assert(ts[j as int].name() == n);
                    } else {
                        assert(old_tems[k] == tems@[k]);
                        assert(listed(old_tems, n));
                    }
                }
            }
        }
        j = j + 1;
    }
    proof {
        assert forall|a: int, b: int|
            0 <= a < ts.len() && 0 <= b < ts.len() && #[trigger] ts[a].name() == #[trigger] ts[b].name()
                implies (ts[a] is Hole) == (ts[b] is Hole) by {
            if a < b {
                assert(!conflict_at(ts, b));
            } else if b < a {
                assert(!conflict_at(ts, a));
            }
        }
    }
    Ok(())
}

/// A stream holding `x` both as a hole and as an identifier is refused; where
/// `x` is the only name used with both roles, the refusal names `x`.
pub proof fn lemma_conflict_named(ts: Seq<Terminal>, x: Seq<char>, a: int, b: int)
    requires
        0 <= a < ts.len(),
        0 <= b < ts.len(),
        ts[a] is Hole && ts[a].name() == x,
        ts[b] is Id && ts[b].name() == x,
        forall|i: int, k: int|
            0 <= i < ts.len() && 0 <= k < ts.len() && #[trigger] ts[i].name() == #[trigger] ts[k].name()
                && (ts[i] is Hole) != (ts[k] is Hole) ==> ts[i].name() == x,
    ensures
        !roles_consistent(ts),
        forall|j: int| #[trigger] is_first_conflict(ts, j) ==> ts[j].name() == x,
{
    assert(ts[a].name() == ts[b].name());
    assert forall|j: int| #[trigger] is_first_conflict(ts, j) implies ts[j].name() == x by {
        let i = choose|i: int| 0 <= i < j && #[trigger] ts[i].name() == ts[j].name() && (ts[i] is Hole) != (ts[j] is Hole);
    }
}

/// The type parameters of a datatype: the first and the rest, in order.
pub open spec fn type_param_names(type_params: Option<(String, Vec<String>)>) -> Seq<String> {
    match type_params {
        Some((h, t)) => seq![h] + t@,
        None => seq![],
    }
}

/// Builds a datatype declaration from its name, its optional type
/// parameters (a first one and the rest) and its constructors.
pub fn parse_datatype(
    name: String,
    type_params: Option<(String, Vec<String>)>,
    constrs: Vec<Constructor>,
) -> (r: Option<Statement>)
    ensures
        r matches Some(Statement::Datatype(n, tps, cs)) && n == name && tps@ == type_param_names(
            type_params,
        ) && cs == constrs,
{
    let ghost expected = type_param_names(type_params);
    if let Some((h, t)) = type_params {
        let mut tps: Vec<Identifier> = vec![h];
        let mut rest = t;
        tps.append(&mut rest);
        assert(tps@ =~= expected);
        Some(Statement::Datatype(name, tps, constrs))
    } else {
        let tps: Vec<Identifier> = Vec::new();
        assert(tps@ =~= expected);
        Some(Statement::Datatype(name, tps, constrs))
    }
}

} // verus!
