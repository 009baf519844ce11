use vstd::prelude::*;
use vstd::string::StringExecFns;

verus! {

broadcast use vstd::std_specs::vec::axiom_vec_index_decreases;

pub type Identifier = String;

/// A named token: a concrete symbol or a pattern variable ("hole").
#[derive(Debug, PartialEq, Eq, Hash)]
pub enum Terminal {
    Id(Identifier, Option<Box<Annotation>>),
    Hole(Identifier, Option<Box<Annotation>>),
}

/// Optional type metadata attached to a terminal.
#[derive(Debug, PartialEq, Eq, Hash)]
pub enum Annotation {
    Type(Expression),
    Placeholder(usize),
    MultiAnnot(Vec<Annotation>),
}

/// A term: a leaf, an application of a terminal to ordered children, or a
/// pattern match over a scrutinee with ordered arms.
#[derive(Debug, PartialEq, Eq, Hash)]
pub enum Expression {
    Leaf(Terminal),
    Op(Terminal, Vec<Expression>),
    Match(Box<Expression>, Vec<(Expression, Expression)>),
}

/// The mathematical value of a terminal: its role, its name and its annotation.
pub enum TermModel {
    Id(Seq<char>, Option<Box<AnnoModel>>),
    Hole(Seq<char>, Option<Box<AnnoModel>>),
}

/// The mathematical value of an annotation.
pub enum AnnoModel {
    Type(ExprModel),
    Placeholder(nat),
    MultiAnnot(Seq<AnnoModel>),
}

/// The mathematical value of an expression: the same tree, with sequences for vectors.
pub enum ExprModel {
    Leaf(TermModel),
    Op(TermModel, Seq<ExprModel>),
    Match(Box<ExprModel>, Seq<(ExprModel, ExprModel)>),
}

pub open spec fn term_model(t: Terminal) -> TermModel
    decreases t,
{
    match t {
        Terminal::Id(i, a) => TermModel::Id(i@, opt_anno_model(a)),
        Terminal::Hole(i, a) => TermModel::Hole(i@, opt_anno_model(a)),
    }
}

pub open spec fn opt_anno_model(a: Option<Box<Annotation>>) -> Option<Box<AnnoModel>>
    decreases a,
{
    match a {
        None => None,
        Some(b) => Some(Box::new(anno_model(*b))),
    }
}

pub open spec fn anno_model(a: Annotation) -> AnnoModel
    decreases a,
{
    match a {
        Annotation::Type(e) => AnnoModel::Type(expr_model(e)),
        Annotation::Placeholder(n) => AnnoModel::Placeholder(n as nat),
        Annotation::MultiAnnot(v) => AnnoModel::MultiAnnot(
            Seq::new(v.len() as nat, |i: int| if 0 <= i < v.len() { anno_model(v[i]) } else { AnnoModel::Placeholder(0) }),
        ),
    }
}

pub open spec fn expr_model(e: Expression) -> ExprModel
    decreases e,
{
    match e {
        Expression::Leaf(t) => ExprModel::Leaf(term_model(t)),
        Expression::Op(t, cs) => ExprModel::Op(
            term_model(t),
            Seq::new(cs.len() as nat, |i: int| if 0 <= i < cs.len() { expr_model(cs[i]) } else { ExprModel::Leaf(term_model(t)) }),
        ),
        Expression::Match(s, arms) => ExprModel::Match(
            Box::new(expr_model(*s)),
            Seq::new(arms.len() as nat, |i: int| if 0 <= i < arms.len() { (expr_model(arms[i].0), expr_model(arms[i].1)) } else { (expr_model(*s), expr_model(*s)) }),
        ),
    }
}

impl View for Terminal {
    type V = TermModel;

    open spec fn view(&self) -> TermModel {
        term_model(*self)
    }
}

impl View for Annotation {
    type V = AnnoModel;

    open spec fn view(&self) -> AnnoModel {
        anno_model(*self)
    }
}

impl View for Expression {
    type V = ExprModel;

    open spec fn view(&self) -> ExprModel {
        expr_model(*self)
    }
}

impl Terminal {
    pub open spec fn name(self) -> Seq<char> {
        match self {
            Terminal::Id(i, _) => i@,
            Terminal::Hole(i, _) => i@,
        }
    }

    pub open spec fn spec_is_hole(self) -> bool {
        self is Hole
    }

    pub open spec fn annotation(self) -> Option<Box<Annotation>> {
        match self {
            Terminal::Id(_, a) => a,
            Terminal::Hole(_, a) => a,
        }
    }

    pub fn ident(&self) -> (r: &String)
        ensures
            r@ == self.name(),
    {
        match self {
            Terminal::Id(i, _) => i,
            Terminal::Hole(i, _) => i,
        }
    }

    pub fn is_hole(&self) -> (r: bool)
        ensures
            r == self.spec_is_hole(),
    {
        match self {
            Terminal::Id(_, _) => false,
            Terminal::Hole(_, _) => true,
        }
    }

    pub fn is_id(&self) -> (r: bool)
        ensures
            r == !self.spec_is_hole(),
    {
        !self.is_hole()
    }

    pub fn anno(&self) -> (r: &Option<Box<Annotation>>)
        ensures
            *r == self.annotation(),
    {
        match self {
            Terminal::Id(_, a) => a,
            Terminal::Hole(_, a) => a,
        }
    }
}

impl Clone for Terminal {
    fn clone(&self) -> (r: Self)
        ensures
            r@ == self@,
    {
        copy_terminal(self)
    }
}

impl Clone for Annotation {
    fn clone(&self) -> (r: Self)
        ensures
            r@ == self@,
    {
        copy_annotation(self)
    }
}

impl Clone for Expression {
    fn clone(&self) -> (r: Self)
        ensures
            r@ == self@,
    {
        copy_expression(self)
    }
}

/// Structural copies, proved equal to their source.
fn copy_terminal(t: &Terminal) -> (r: Terminal)
    ensures
        r@ == t@,
    decreases t,
{
    match t {
        Terminal::Id(i, a) => Terminal::Id(i.clone(), copy_opt_annotation(a)),
        Terminal::Hole(i, a) => Terminal::Hole(i.clone(), copy_opt_annotation(a)),
    }
}

fn copy_opt_annotation(a: &Option<Box<Annotation>>) -> (r: Option<Box<Annotation>>)
    ensures
        opt_anno_model(r) == opt_anno_model(*a),
    decreases a,
{
    match a {
        None => None,
        Some(b) => Some(Box::new(copy_annotation(b))),
    }
}

fn copy_annotation(a: &Annotation) -> (r: Annotation)
    ensures
        r@ == a@,
    decreases a,
{
    match a {
        Annotation::Type(e) => Annotation::Type(copy_expression(e)),
        Annotation::Placeholder(n) => Annotation::Placeholder(*n),
        Annotation::MultiAnnot(v) => {
            let mut r: Vec<Annotation> = Vec::new();
            let mut i: usize = 0;
            while i < v.len()
                invariant
                    i <= v.len(),
                    *a is MultiAnnot,
                    (*a)->MultiAnnot_0 == *v,
                    forall|k: int| 0 <= k < i ==> #[trigger] r@[k]@ == v@[k]@,
                    r@.len() == i,
                decreases v.len() - i,
            {
                proof {
                    assert(decreases_to!(*a => (*a)->MultiAnnot_0));
                    assert(decreases_to!(*v => v[i as int]));
                    assert(decreases_to!(*a => v[i as int]));
                }
                r.push(copy_annotation(&v[i]));
                i = i + 1;
            }
            let res = Annotation::MultiAnnot(r);
            assert(res@->MultiAnnot_0 =~= a@->MultiAnnot_0) by {
                assert forall|k: int| 0 <= k < v.len() implies res@->MultiAnnot_0[k] == a@->MultiAnnot_0[k] by {
                    assert(r@[k]@ == v@[k]@);
                }
            }
            res
        },
    }
}

fn copy_expression(e: &Expression) -> (r: Expression)
    ensures
        r@ == e@,
    decreases e,
{
    match e {
        Expression::Leaf(t) => Expression::Leaf(copy_terminal(t)),
        Expression::Op(t, cs) => {
            let mut r: Vec<Expression> = Vec::new();
            let mut i: usize = 0;
            while i < cs.len()
                invariant
                    i <= cs.len(),
                    *e is Op,
                    (*e)->Op_1 == *cs,
                    forall|k: int| 0 <= k < i ==> #[trigger] r@[k]@ == cs@[k]@,
                    r@.len() == i,
                decreases cs.len() - i,
            {
                proof {
                    assert(decreases_to!(*e => (*e)->Op_1));
                    assert(decreases_to!(*cs => cs[i as int]));
                    assert(decreases_to!(*e => cs[i as int]));
                }
                r.push(copy_expression(&cs[i]));
                i = i + 1;
            }
            let res = Expression::Op(copy_terminal(t), r);
            assert(res@->Op_1 =~= e@->Op_1) by {
                assert forall|k: int| 0 <= k < cs.len() implies res@->Op_1[k] == e@->Op_1[k] by {
                    assert(r@[k]@ == cs@[k]@);
                }
            }
            res
        },
        Expression::Match(s, arms) => {
            let mut r: Vec<(Expression, Expression)> = Vec::new();
            let mut i: usize = 0;
            while i < arms.len()
                invariant
                    i <= arms.len(),
                    *e is Match,
                    (*e)->Match_1 == *arms,
                    forall|k: int| 0 <= k < i ==> (#[trigger] r@[k]).0@ == arms@[k].0@ && r@[k].1@ == arms@[k].1@,
                    r@.len() == i,
                decreases arms.len() - i,
            {
                proof {
                    assert(decreases_to!(*e => (*e)->Match_1));
                    assert(decreases_to!(*arms => arms[i as int]));
                    assert(decreases_to!(arms[i as int] => arms[i as int].0));
                    assert(decreases_to!(arms[i as int] => arms[i as int].1));
                    assert(decreases_to!(*e => arms[i as int].0));
                    assert(decreases_to!(*e => arms[i as int].1));
                }
                let p = copy_expression(&arms[i].0);
                let b = copy_expression(&arms[i].1);
                r.push((p, b));
                i = i + 1;
            }
            let res = Expression::Match(Box::new(copy_expression(s)), r);
            assert(res@->Match_1 =~= e@->Match_1) by {
                assert forall|k: int| 0 <= k < arms.len() implies res@->Match_1[k] == e@->Match_1[k] by {
                    assert(r@[k].0@ == arms@[k].0@ && r@[k].1@ == arms@[k].1@);
                }
            }
            res
        },
    }
}


/// The terminals of a term, in the traversal order of `terminals`.
pub open spec fn terms(e: Expression) -> Seq<Terminal>
    decreases e,
{
    match e {
        Expression::Leaf(t) => seq![t],
        Expression::Op(t, cs) => seq![t] + terms_of_list(cs@),
        Expression::Match(s, arms) => terms_of_arms(arms@) + terms(*s),
    }
}

/// The terminals of each term of `cs`, concatenated left to right.
pub open spec fn terms_of_list(cs: Seq<Expression>) -> Seq<Terminal>
    decreases cs,
{
    if cs.len() == 0 {
        seq![]
    } else {
        terms_of_list(cs.subrange(0, cs.len() - 1)) + terms(cs[cs.len() - 1])
    }
}

/// For each arm in order, the pattern's terminals followed by the body's.
pub open spec fn terms_of_arms(arms: Seq<(Expression, Expression)>) -> Seq<Terminal>
    decreases arms,
{
    if arms.len() == 0 {
        seq![]
    } else {
        terms_of_arms(arms.subrange(0, arms.len() - 1)) + terms(arms[arms.len() - 1].0) + terms(
            arms[arms.len() - 1].1,
        )
    }
}

pub open spec fn deref_all(s: Seq<&Terminal>) -> Seq<Terminal> {
    s.map_values(|t: &Terminal| *t)
}

impl Expression {
    /// Every terminal of the tree: for an application the head first, then the
    /// children's terminals left to right; for a match each arm's pattern and
    /// body terminals in arm order, then the scrutinee's terminals last.
    pub fn terminals(&self) -> (r: Vec<&Terminal>)
        ensures
            deref_all(r@) == terms(*self),
        decreases self,
    {
        match self {
            Expression::Leaf(t) => {
                let r = vec![t];
                assert(deref_all(r@) =~= terms(*self));
                r
            },
            Expression::Op(t, cs) => {
                let mut r: Vec<&Terminal> = vec![t];
                let mut i: usize = 0;
                assert(deref_all(r@) =~= seq![*t] + terms_of_list(cs@.subrange(0, 0)));
                while i < cs.len()
                    invariant
                        i <= cs.len(),
                        *self is Op,
                        (*self)->Op_1 == *cs,
                        deref_all(r@) == seq![*t] + terms_of_list(cs@.subrange(0, i as int)),
                    decreases cs.len() - i,
                {
                    proof {
                        assert(decreases_to!(*self => (*self)->Op_1));
                        assert(decreases_to!(*cs => cs[i as int]));
                    }
                    let mut sub = cs[i].terminals();
                    let ghost prev = r@;
                    r.append(&mut sub);
                    proof {
                        let next = cs@.subrange(0, i as int + 1);
                        assert(next.subrange(0, i as int) =~= cs@.subrange(0, i as int));
                        assert(deref_all(r@) =~= deref_all(prev) + terms(cs@[i as int]));
                    }
                    i = i + 1;
                }
                assert(cs@.subrange(0, cs.len() as int) =~= cs@);
                r
            },
            Expression::Match(s, arms) => {
                let mut r: Vec<&Terminal> = Vec::new();
                let mut i: usize = 0;
                assert(deref_all(r@) =~= terms_of_arms(arms@.subrange(0, 0)));
                while i < arms.len()
                    invariant
                        i <= arms.len(),
                        *self is Match,
                        (*self)->Match_1 == *arms,
                        deref_all(r@) == terms_of_arms(arms@.subrange(0, i as int)),
                    decreases arms.len() - i,
                {
                    proof {
                        assert(decreases_to!(*self => (*self)->Match_1));
                        assert(decreases_to!(*arms => arms[i as int]));
                        assert(decreases_to!(arms[i as int] => arms[i as int].0));
                        assert(decreases_to!(arms[i as int] => arms[i as int].1));
                    }
                    let mut ps = arms[i].0.terminals();
                    let mut bs = arms[i].1.terminals();
                    let ghost prev = r@;
                    r.append(&mut ps);
                    r.append(&mut bs);
                    proof {
                        let next = arms@.subrange(0, i as int + 1);
                        assert(next.subrange(0, i as int) =~= arms@.subrange(0, i as int));
                        assert(deref_all(r@) =~= deref_all(prev) + terms(arms@[i as int].0) + terms(
                            arms@[i as int].1,
                        ));
                    }
                    i = i + 1;
                }
                assert(arms@.subrange(0, arms.len() as int) =~= arms@);
                let mut last = s.terminals();
                let ghost prev = r@;
                r.append(&mut last);
                assert(deref_all(r@) =~= deref_all(prev) + terms(**s));
                r
            },
        }
    }

    /// The hole terminals of the tree, in the order of `terminals`.
    pub fn holes(&self) -> (r: Vec<&Terminal>)
        ensures
            deref_all(r@) == hole_terms(*self),
    {
        let ts = self.terminals();
        let mut r: Vec<&Terminal> = Vec::new();
        let mut i: usize = 0;
        proof {
            reveal(Seq::filter);
        }
        assert(deref_all(ts@).take(0).filter(is_hole_term()) =~= seq![]);
        assert(deref_all(r@) =~= seq![]);
        while i < ts.len()
            invariant
                i <= ts.len(),
                deref_all(ts@) == terms(*self),
                deref_all(r@) == deref_all(ts@).take(i as int).filter(is_hole_term()),
            decreases ts.len() - i,
        {
            let t = ts[i];
            let ghost prev = r@;
            if t.is_hole() {
                r.push(t);
            }
            proof {
                reveal(Seq::filter);
                let all = deref_all(ts@);
                assert(all.take(i as int + 1).drop_last() =~= all.take(i as int));
                assert(all.take(i as int + 1).last() == *t);
                assert(deref_all(r@) =~= all.take(i as int + 1).filter(is_hole_term()));
            }
            i = i + 1;
        }
        assert(deref_all(ts@).take(ts.len() as int) =~= deref_all(ts@));
        r
    }

    /// The head terminal: the held terminal of a leaf or an application, and
    /// the sentinel `match` identifier for a match.
    pub fn root(&self) -> (r: Terminal)
        ensures
            r@ == root_model(self@),
    {
        match self {
            Expression::Leaf(t) => copy_terminal(t),
            Expression::Op(t, _) => copy_terminal(t),
            Expression::Match(_, _) => match_root(),
        }
    }

    /// The direct subterms: none for a leaf, the arguments of an application,
    /// and for a match every arm body in arm order followed by the scrutinee.
    pub fn children(&self) -> (r: Vec<Expression>)
        ensures
            r@.map_values(|c: Expression| c@) == model_children(self@),
    {
        match self {
            Expression::Leaf(_) => {
                let r: Vec<Expression> = Vec::new();
                assert(r@.map_values(|c: Expression| c@) =~= model_children(self@));
                r
            },
            Expression::Op(_, cs) => {
                let mut r: Vec<Expression> = Vec::new();
                let mut i: usize = 0;
                while i < cs.len()
                    invariant
                        i <= cs.len(),
                        *self is Op,
                        (*self)->Op_1 == *cs,
                        r@.len() == i,
                        forall|k: int| 0 <= k < i ==> #[trigger] r@[k]@ == cs@[k]@,
                    decreases cs.len() - i,
                {
                    r.push(copy_expression(&cs[i]));
                    i = i + 1;
                }
                assert(r@.map_values(|c: Expression| c@) =~= model_children(self@));
                r
            },
            Expression::Match(s, arms) => {
                let mut r: Vec<Expression> = Vec::new();
                let mut i: usize = 0;
                while i < arms.len()
                    invariant
                        i <= arms.len(),
                        *self is Match,
                        (*self)->Match_1 == *arms,
                        r@.len() == i,
                        forall|k: int| 0 <= k < i ==> #[trigger] r@[k]@ == arms@[k].1@,
                    decreases arms.len() - i,
                {
                    r.push(copy_expression(&arms[i].1));
                    i = i + 1;
                }
                r.push(copy_expression(s));
                assert(r@.map_values(|c: Expression| c@) =~= model_children(self@));
                r
            },
        }
    }
}

/// The sentinel head of a match: the identifier `match`, without annotation.
pub open spec fn match_root_model() -> TermModel {
    TermModel::Id(seq!['m', 'a', 't', 'c', 'h'], None)
}

pub open spec fn root_model(m: ExprModel) -> TermModel {
    match m {
        ExprModel::Leaf(t) => t,
        ExprModel::Op(t, _) => t,
        ExprModel::Match(_, _) => match_root_model(),
    }
}

pub open spec fn model_children(m: ExprModel) -> Seq<ExprModel> {
    match m {
        ExprModel::Leaf(_) => seq![],
        ExprModel::Op(_, cs) => cs,
        ExprModel::Match(s, arms) => arms.map_values(|a: (ExprModel, ExprModel)| a.1).push(*s),
    }
}

pub open spec fn is_hole_term() -> spec_fn(Terminal) -> bool {
    |t: Terminal| t is Hole
}

/// The hole terminals of a term, in traversal order.
pub open spec fn hole_terms(e: Expression) -> Seq<Terminal> {
    terms(e).filter(is_hole_term())
}

/// The sentinel terminal that stands as the head of a match.
pub fn match_root() -> (r: Terminal)
    ensures
        r@ == match_root_model(),
{
    let name = String::from_str("match");
    proof {
        reveal_strlit("match");
        assert(name@ =~= seq!['m', 'a', 't', 'c', 'h']);
    }
    Terminal::Id(name, None)
}

/// The canonical text of a terminal: the bare name of an identifier, `?`
/// followed by the name for a hole.
pub open spec fn term_text(t: Terminal) -> Seq<char> {
    match t {
        Terminal::Id(i, _) => i@,
        Terminal::Hole(i, _) => seq!['?'] + i@,
    }
}

/// The canonical s-expression of a term.
pub open spec fn sexp(e: Expression) -> Seq<char>
    decreases e,
{
    match e {
        Expression::Leaf(t) => term_text(t),
        Expression::Op(t, cs) => seq!['('] + term_text(t) + sexp_list(cs@) + seq![')'],
        Expression::Match(s, arms) => seq!['(', 'm', 'a', 't', 'c', 'h', ' '] + sexp(*s) + sexp_arms(
            arms@,
        ) + seq![')'],
    }
}

/// Each term's s-expression preceded by one space.
pub open spec fn sexp_list(cs: Seq<Expression>) -> Seq<char>
    decreases cs,
{
    if cs.len() == 0 {
        seq![]
    } else {
        sexp_list(cs.subrange(0, cs.len() - 1)) + seq![' '] + sexp(cs[cs.len() - 1])
    }
}

/// Each arm written ` (=> pattern body)`.
pub open spec fn sexp_arms(arms: Seq<(Expression, Expression)>) -> Seq<char>
    decreases arms,
{
    if arms.len() == 0 {
        seq![]
    } else {
        sexp_arms(arms.subrange(0, arms.len() - 1)) + seq![' ', '(', '=', '>', ' '] + sexp(
            arms[arms.len() - 1].0,
        ) + seq![' '] + sexp(arms[arms.len() - 1].1) + seq![')']
    }
}

impl ToString for Terminal {
    fn to_string(&self) -> (r: String)
        ensures
            r@ == term_text(*self),
    {
        match self {
            Terminal::Id(x, _) => x.clone(),
            Terminal::Hole(x, _) => {
                let mut r = String::from_str("?");
                proof {
                    reveal_strlit("?");
                }
                r.append(x.as_str());
                r
            },
        }
    }
}

impl Expression {
    /// The canonical s-expression: a terminal for a leaf, `(head c1 ... cn)`
    /// for an application, `(match scrutinee (=> p1 b1) ...)` for a match.
    pub fn to_sexp_string(&self) -> (r: String)
        ensures
            r@ == sexp(*self),
        decreases self,
    {
        match self {
            Expression::Leaf(t) => t.to_string(),
            Expression::Op(t, cs) => {
                let mut r = String::from_str("(");
                proof {
                    reveal_strlit("(");
                    reveal_strlit(" ");
                    reveal_strlit(")");
                }
                let head = t.to_string();
                r.append(head.as_str());
                let ghost start = r@;
                let mut i: usize = 0;
                assert(sexp_list(cs@.subrange(0, 0)) =~= seq![]);
                assert(r@ =~= start + sexp_list(cs@.subrange(0, 0)));
                while i < cs.len()
                    invariant
                        i <= cs.len(),
                        *self is Op,
                        (*self)->Op_1 == *cs,
                        r@ == start + sexp_list(cs@.subrange(0, i as int)),
                        " "@ == seq![' '],
                    decreases cs.len() - i,
                {
                    proof {
                        assert(decreases_to!(*self => (*self)->Op_1));
                        assert(decreases_to!(*cs => cs[i as int]));
                    }
                    let sub = cs[i].to_sexp_string();
                    r.append(" ");
                    r.append(sub.as_str());
                    proof {
                        let next = cs@.subrange(0, i as int + 1);
                        assert(next.subrange(0, i as int) =~= cs@.subrange(0, i as int));
                        assert(r@ =~= start + sexp_list(next));
                    }
                    i = i + 1;
                }
                assert(cs@.subrange(0, cs.len() as int) =~= cs@);
                r.append(")");
                assert(r@ =~= sexp(*self));
                r
            },
            Expression::Match(s, arms) => {
                let mut r = String::from_str("(match ");
                proof {
                    reveal_strlit("(match ");
                    reveal_strlit(" (=> ");
                    reveal_strlit(" ");
                    reveal_strlit(")");
                }
                let scrut = s.to_sexp_string();
                r.append(scrut.as_str());
                let ghost start = r@;
                let mut i: usize = 0;
                assert(sexp_arms(arms@.subrange(0, 0)) =~= seq![]);
                assert(r@ =~= start + sexp_arms(arms@.subrange(0, 0)));
                while i < arms.len()
                    invariant
                        i <= arms.len(),
                        *self is Match,
                        (*self)->Match_1 == *arms,
                        r@ == start + sexp_arms(arms@.subrange(0, i as int)),
                        " "@ == seq![' '],
                        " (=> "@ == seq![' ', '(', '=', '>', ' '],
                        ")"@ == seq![')'],
                    decreases arms.len() - i,
                {
                    proof {
                        assert(decreases_to!(*self => (*self)->Match_1));
                        assert(decreases_to!(*arms => arms[i as int]));
                        assert(decreases_to!(arms[i as int] => arms[i as int].0));
                        assert(decreases_to!(arms[i as int] => arms[i as int].1));
                    }
                    let p = arms[i].0.to_sexp_string();
                    let b = arms[i].1.to_sexp_string();
                    r.append(" (=> ");
                    r.append(p.as_str());
                    r.append(" ");
                    r.append(b.as_str());
                    r.append(")");
                    proof {
                        let next = arms@.subrange(0, i as int + 1);
                        assert(next.subrange(0, i as int) =~= arms@.subrange(0, i as int));
                        assert(r@ =~= start + sexp_arms(next));
                    }
                    i = i + 1;
                }
                assert(arms@.subrange(0, arms.len() as int) =~= arms@);
                r.append(")");
                assert(r@ =~= sexp(*self));
                r
            },
        }
    }
}

/// Two terms have the same shape: the same variant at every position, the
/// same number of children and the same number of arms.
pub open spec fn same_shape(a: ExprModel, b: ExprModel) -> bool
    decreases a,
{
    match a {
        ExprModel::Leaf(_) => b is Leaf,
        ExprModel::Op(_, xs) => match b {
            ExprModel::Op(_, ys) => xs.len() == ys.len() && forall|i: int|
                0 <= i < xs.len() ==> same_shape(#[trigger] xs[i], ys[i]),
            _ => false,
        },
        ExprModel::Match(s, xs) => match b {
            ExprModel::Match(t, ys) => same_shape(*s, *t) && xs.len() == ys.len() && forall|i: int|
                0 <= i < xs.len() ==> same_shape(#[trigger] xs[i].0, ys[i].0) && same_shape(
                    xs[i].1,
                    ys[i].1,
                ),
            _ => false,
        },
    }
}

/// `b` holds, position by position, a result of `f` on the terminal of `a`.
pub open spec fn mapped_by<F: Fn(&Terminal) -> Terminal>(
    f: F,
    a: Seq<Terminal>,
    b: Seq<Terminal>,
) -> bool {
    &&& a.len() == b.len()
    &&& forall|i: int| 0 <= i < a.len() ==> f.ensures((&a[i],), #[trigger] b[i])
}

proof fn lemma_mapped_concat<F: Fn(&Terminal) -> Terminal>(
    f: F,
    a1: Seq<Terminal>,
    b1: Seq<Terminal>,
    a2: Seq<Terminal>,
    b2: Seq<Terminal>,
)
    requires
        mapped_by(f, a1, b1),
        mapped_by(f, a2, b2),
    ensures
        mapped_by(f, a1 + a2, b1 + b2),
{
    assert forall|i: int| 0 <= i < (a1 + a2).len() implies f.ensures(
        (&(a1 + a2)[i],),
        #[trigger] (b1 + b2)[i],
    ) by {
        if i < a1.len() {
            assert(b1[i] == (b1 + b2)[i]);
        } else {
            assert(b2[i - a1.len()] == (b1 + b2)[i]);
        }
    }
}

impl Expression {
    /// A tree of the same shape with every terminal replaced by `f` of it.
    /// `f` is applied to the head before the children of an application, and
    /// to the scrutinee before the arms of a match (pattern before body).
    pub fn map<F: Fn(&Terminal) -> Terminal>(&self, f: &F) -> (r: Expression)
        requires
            forall|t: &Terminal| f.requires((t,)),
        ensures
            same_shape(r@, self@),
            mapped_by(*f, terms(*self), terms(r)),
        decreases self,
    {
        match self {
            Expression::Leaf(t) => {
                let nt = f(t);
                let r = Expression::Leaf(nt);
                assert(mapped_by(*f, terms(*self), terms(r)));
                r
            },
            Expression::Op(t, cs) => {
                let nt = f(t);
                let mut ncs: Vec<Expression> = Vec::new();
                let mut i: usize = 0;
                assert(terms_of_list(cs@.subrange(0, 0)) =~= seq![]);
                assert(terms_of_list(ncs@) =~= seq![]);
                while i < cs.len()
                    invariant
                        i <= cs.len(),
                        *self is Op,
                        (*self)->Op_1 == *cs,
                        forall|t: &Terminal| f.requires((t,)),
                        ncs@.len() == i,
                        forall|k: int| 0 <= k < i ==> same_shape(#[trigger] ncs@[k]@, cs@[k]@),
                        mapped_by(*f, terms_of_list(cs@.subrange(0, i as int)), terms_of_list(ncs@)),
                    decreases cs.len() - i,
                {
                    proof {
                        assert(decreases_to!(*self => (*self)->Op_1));
                        assert(decreases_to!(*cs => cs[i as int]));
                    }
                    let c = cs[i].map(f);
                    let ghost prev = ncs@;
                    ncs.push(c);
                    proof {
                        let next = cs@.subrange(0, i as int + 1);
                        assert(next.subrange(0, i as int) =~= cs@.subrange(0, i as int));
                        assert(ncs@.subrange(0, i as int) =~= prev);
                        lemma_mapped_concat(
                            *f,
                            terms_of_list(cs@.subrange(0, i as int)),
                            terms_of_list(prev),
                            terms(cs@[i as int]),
                            terms(c),
                        );
                    }
                    i = i + 1;
                }
                assert(cs@.subrange(0, cs.len() as int) =~= cs@);
                let r = Expression::Op(nt, ncs);
                proof {
                    assert(mapped_by(*f, seq![*t], seq![nt]));
                    lemma_mapped_concat(*f, seq![*t], seq![nt], terms_of_list(cs@), terms_of_list(ncs@));
                    assert(forall|k: int| 0 <= k < cs.len() ==> #[trigger] r@->Op_1[k] == ncs@[k]@);
                    assert(forall|k: int| 0 <= k < cs.len() ==> #[trigger] self@->Op_1[k] == cs@[k]@);
                }
                r
            },
            Expression::Match(s, arms) => {
                let ns = s.map(f);
                let mut narms: Vec<(Expression, Expression)> = Vec::new();
                let mut i: usize = 0;
                assert(terms_of_arms(arms@.subrange(0, 0)) =~= seq![]);
                assert(terms_of_arms(narms@) =~= seq![]);
                while i < arms.len()
                    invariant
                        i <= arms.len(),
                        *self is Match,
                        (*self)->Match_1 == *arms,
                        forall|t: &Terminal| f.requires((t,)),
                        narms@.len() == i,
                        forall|k: int|
                            0 <= k < i ==> same_shape((#[trigger] narms@[k]).0@, arms@[k].0@)
                                && same_shape(narms@[k].1@, arms@[k].1@),
                        mapped_by(*f, terms_of_arms(arms@.subrange(0, i as int)), terms_of_arms(narms@)),
                    decreases arms.len() - i,
                {
                    proof {
                        assert(decreases_to!(*self => (*self)->Match_1));
                        assert(decreases_to!(*arms => arms[i as int]));
                        assert(decreases_to!(arms[i as int] => arms[i as int].0));
                        assert(decreases_to!(arms[i as int] => arms[i as int].1));
                    }
                    let p = arms[i].0.map(f);
                    let b = arms[i].1.map(f);
                    let ghost prev = narms@;
                    narms.push((p, b));
                    proof {
                        let next = arms@.subrange(0, i as int + 1);
                        assert(next.subrange(0, i as int) =~= arms@.subrange(0, i as int));
                        assert(narms@.subrange(0, i as int) =~= prev);
                        lemma_mapped_concat(
                            *f,
                            terms_of_arms(arms@.subrange(0, i as int)),
                            terms_of_arms(prev),
                            terms(arms@[i as int].0),
                            terms(p),
                        );
                        lemma_mapped_concat(
                            *f,
                            terms_of_arms(arms@.subrange(0, i as int)) + terms(arms@[i as int].0),
                            terms_of_arms(prev) + terms(p),
                            terms(arms@[i as int].1),
                            terms(b),
                        );
                    }
                    i = i + 1;
                }
                assert(arms@.subrange(0, arms.len() as int) =~= arms@);
                let r = Expression::Match(Box::new(ns), narms);
                proof {
                    lemma_mapped_concat(*f, terms_of_arms(arms@), terms_of_arms(narms@), terms(**s), terms(ns));
                    assert(forall|k: int| 0 <= k < arms.len() ==> #[trigger] r@->Match_1[k] == (narms@[k].0@, narms@[k].1@));
                    assert(forall|k: int| 0 <= k < arms.len() ==> #[trigger] self@->Match_1[k] == (arms@[k].0@, arms@[k].1@));
                }
                r
            },
        }
    }
}

/// The first `Type` found in a left-to-right, depth-first scan.
pub open spec fn type_of(a: Annotation) -> Option<Expression>
    decreases a,
{
    match a {
        Annotation::Type(x) => Some(x),
        Annotation::Placeholder(_) => None,
        Annotation::MultiAnnot(v) => first_type(v@),
    }
}

pub open spec fn first_type(s: Seq<Annotation>) -> Option<Expression>
    decreases s,
{
    if s.len() == 0 {
        None
    } else {
        match type_of(s[0]) {
            Some(x) => Some(x),
            None => first_type(s.subrange(1, s.len() as int)),
        }
    }
}

/// The first `Placeholder` index found in a left-to-right, depth-first scan.
pub open spec fn ph_of(a: Annotation) -> Option<usize>
    decreases a,
{
    match a {
        Annotation::Type(_) => None,
        Annotation::Placeholder(n) => Some(n),
        Annotation::MultiAnnot(v) => first_ph(v@),
    }
}

pub open spec fn first_ph(s: Seq<Annotation>) -> Option<usize>
    decreases s,
{
    if s.len() == 0 {
        None
    } else {
        match ph_of(s[0]) {
            Some(x) => Some(x),
            None => first_ph(s.subrange(1, s.len() as int)),
        }
    }
}

impl Annotation {
    pub fn has_type(&self) -> (r: bool)
        ensures
            r == type_of(*self) is Some,
    {
        self.get_type().is_some()
    }

    /// A copy of the first type found, if any.
    pub fn get_type(&self) -> (r: Option<Expression>)
        ensures
            match r {
                Some(x) => type_of(*self) is Some && x@ == type_of(*self)->0@,
                None => type_of(*self) is None,
            },
        decreases self,
    {
        match self {
            Annotation::Type(x) => Some(copy_expression(x)),
            Annotation::Placeholder(_) => None,
            Annotation::MultiAnnot(v) => {
                let mut i: usize = 0;
                assert(v@.subrange(0, v.len() as int) =~= v@);
                while i < v.len()
                    invariant
                        i <= v.len(),
                        *self is MultiAnnot,
                        (*self)->MultiAnnot_0 == *v,
                        first_type(v@) == first_type(v@.subrange(i as int, v.len() as int)),
                    decreases v.len() - i,
                {
                    proof {
                        assert(decreases_to!(*self => (*self)->MultiAnnot_0));
                        assert(decreases_to!(*v => v[i as int]));
                    }
                    let found = v[i].get_type();
                    proof {
                        let rest = v@.subrange(i as int, v.len() as int);
                        assert(rest[0] == v@[i as int]);
                        assert(rest.subrange(1, rest.len() as int) =~= v@.subrange(i as int + 1, v.len() as int));
                    }
                    if found.is_some() {
                        return found;
                    }
                    i = i + 1;
                }
                None
            },
        }
    }

    /// The first placeholder index found, if any, whether or not a type was
    /// found before it.
    pub fn get_ph(&self) -> (r: Option<usize>)
        ensures
            r == ph_of(*self),
        decreases self,
    {
        match self {
            Annotation::Type(_) => None,
            Annotation::Placeholder(x) => Some(*x),
            Annotation::MultiAnnot(v) => {
                let mut i: usize = 0;
                assert(v@.subrange(0, v.len() as int) =~= v@);
                while i < v.len()
                    invariant
                        i <= v.len(),
                        *self is MultiAnnot,
                        (*self)->MultiAnnot_0 == *v,
                        first_ph(v@) == first_ph(v@.subrange(i as int, v.len() as int)),
                    decreases v.len() - i,
                {
                    proof {
                        assert(decreases_to!(*self => (*self)->MultiAnnot_0));
                        assert(decreases_to!(*v => v[i as int]));
                    }
                    let found = v[i].get_ph();
                    proof {
                        let rest = v@.subrange(i as int, v.len() as int);
                        assert(rest[0] == v@[i as int]);
                        assert(rest.subrange(1, rest.len() as int) =~= v@.subrange(i as int + 1, v.len() as int));
                    }
                    if found.is_some() {
                        return found;
                    }
                    i = i + 1;
                }
                None
            },
        }
    }
}

/// A parsed source unit: its statements in order.
#[derive(Debug, Clone)]
pub enum Definitions {
    Defs(Vec<Statement>),
}

/// The arrow that joins the two sides of a rule.
#[derive(Debug, Clone)]
pub enum StatementOp {
    DirectionalRewrite,
    BidirectionalRewrite,
    DiffApply,
}

/// A rule; each kind carries a precondition, a source, a destination and
/// conditions.
#[derive(Debug, Clone)]
pub enum Rewrite {
    /// Rewrites the source into the destination.
    DRewrite(Option<Expression>, Expression, Expression, Vec<Condition>),
    /// Rewrites either side into the other.
    BRewrite(Option<Expression>, Expression, Expression, Vec<Condition>),
    /// Registers a searcher (a diff applier) rather than a direct rewrite.
    AddSearcher(Option<Expression>, Expression, Expression, Vec<Condition>),
}

pub type Parameter = (Identifier, Annotation);

pub type Constructor = (Identifier, Vec<Parameter>);

/// An equality between two terms that must hold for a rule to apply.
pub type Condition = (Expression, Expression);

#[derive(Debug, Clone)]
pub enum Statement {
    /// Name and rewrite definition.
    RewriteDef(String, Rewrite),
    /// Name, parameters, return type and optional body.
    Function(String, Vec<Parameter>, Annotation, Option<Expression>),
    /// Name, type parameters and constructors.
    Datatype(String, Vec<Identifier>, Vec<Constructor>),
    /// Equality of two terms, with an optional precondition.
    Goal(Option<Expression>, Expression, Expression),
    /// Searcher, the subterm to split, the forms it splits into, and the
    /// conditions for the searcher.
    CaseSplit(Expression, Expression, Vec<Expression>, Vec<Condition>),
}

/// The terms that a matching pass searches for: the source, and for a
/// bidirectional rule the destination too.
pub open spec fn source_terms(rw: Rewrite) -> Seq<Expression> {
    match rw {
        Rewrite::DRewrite(_, s, _, _) => seq![s],
        Rewrite::BRewrite(_, s, d, _) => seq![s, d],
        Rewrite::AddSearcher(_, s, _, _) => seq![s],
    }
}

impl Rewrite {
    pub fn source_expressions(&self) -> (r: Vec<&Expression>)
        ensures
            r@.map_values(|e: &Expression| *e) == source_terms(*self),
    {
        let r = match self {
            Rewrite::DRewrite(_, source, _, _) => vec![source],
            Rewrite::BRewrite(_, source, target, _) => vec![source, target],
            Rewrite::AddSearcher(_, source, _, _) => vec![source],
        };
        assert(r@.map_values(|e: &Expression| *e) =~= source_terms(*self));
        r
    }
}

/// The number of terminal-bearing nodes of a term: one for each leaf and
/// each application, and for a match those of its scrutinee and of every
/// arm's pattern and body.
pub open spec fn node_count(e: Expression) -> nat
    decreases e,
{
    match e {
        Expression::Leaf(_) => 1,
        Expression::Op(_, cs) => 1 + node_count_list(cs@),
        Expression::Match(s, arms) => node_count(*s) + node_count_arms(arms@),
    }
}

pub open spec fn node_count_list(cs: Seq<Expression>) -> nat
    decreases cs,
{
    if cs.len() == 0 {
        0
    } else {
        node_count_list(cs.subrange(0, cs.len() - 1)) + node_count(cs[cs.len() - 1])
    }
}

pub open spec fn node_count_arms(arms: Seq<(Expression, Expression)>) -> nat
    decreases arms,
{
    if arms.len() == 0 {
        0
    } else {
        node_count_arms(arms.subrange(0, arms.len() - 1)) + node_count(arms[arms.len() - 1].0)
            + node_count(arms[arms.len() - 1].1)
    }
}

/// A term has exactly one terminal per node that bears one.
pub proof fn lemma_terminals_count(e: Expression)
    ensures
        terms(e).len() == node_count(e),
    decreases e, 1nat,
{
    match e {
        Expression::Leaf(_) => {},
        Expression::Op(_, cs) => {
            lemma_terminals_count_list(cs@);
        },
        Expression::Match(s, arms) => {
            lemma_terminals_count(*s);
            lemma_terminals_count_arms(arms@);
        },
    }
}

proof fn lemma_terminals_count_list(cs: Seq<Expression>)
    ensures
        terms_of_list(cs).len() == node_count_list(cs),
    decreases cs, 0nat,
{
    if cs.len() > 0 {
        lemma_terminals_count_list(cs.subrange(0, cs.len() - 1));
        lemma_terminals_count(cs[cs.len() - 1]);
    }
}

proof fn lemma_terminals_count_arms(arms: Seq<(Expression, Expression)>)
    ensures
        terms_of_arms(arms).len() == node_count_arms(arms),
    decreases arms, 0nat,
{
    if arms.len() > 0 {
        lemma_terminals_count_arms(arms.subrange(0, arms.len() - 1));
        lemma_terminals_count(arms[arms.len() - 1].0);
        lemma_terminals_count(arms[arms.len() - 1].1);
    }
}

/// Every hole of a term is one of its terminals and is a hole; no identifier
/// is among the holes; and every hole terminal of the term is among them.
pub proof fn lemma_holes_subset(e: Expression)
    ensures
        forall|t: Terminal| #[trigger] hole_terms(e).contains(t) ==> terms(e).contains(t) && t is Hole,
        forall|t: Terminal| terms(e).contains(t) && t is Hole ==> #[trigger] hole_terms(e).contains(t),
{
    broadcast use vstd::seq_lib::group_filter_ensures;

    let p = is_hole_term();
    let ts = terms(e);
    assert forall|t: Terminal| #[trigger] hole_terms(e).contains(t) implies ts.contains(t) && t is Hole by {
        let hs = ts.filter(p);
        let i = choose|i: int| 0 <= i < hs.len() && hs[i] == t;
        ts.lemma_filter_contains_rev(p, t);
        assert(p(hs[i]));
    }
    assert forall|t: Terminal| ts.contains(t) && t is Hole implies #[trigger] hole_terms(e).contains(t) by {
        let i = choose|i: int| 0 <= i < ts.len() && ts[i] == t;
        assert(p(ts[i]));
    }
}

/// The terminals of a term in the order in which `map_with` visits them:
/// the head before the children of an application, and for a match the
/// scrutinee, then each arm's pattern and body in arm order.
pub open spec fn visit_terms(e: Expression) -> Seq<Terminal>
    decreases e,
{
    match e {
        Expression::Leaf(t) => seq![t],
        Expression::Op(t, cs) => seq![t] + visit_list(cs@),
        Expression::Match(s, arms) => visit_terms(*s) + visit_arms(arms@),
    }
}

pub open spec fn visit_list(cs: Seq<Expression>) -> Seq<Terminal>
    decreases cs,
{
    if cs.len() == 0 {
        seq![]
    } else {
        visit_list(cs.subrange(0, cs.len() - 1)) + visit_terms(cs[cs.len() - 1])
    }
}

pub open spec fn visit_arms(arms: Seq<(Expression, Expression)>) -> Seq<Terminal>
    decreases arms,
{
    if arms.len() == 0 {
        seq![]
    } else {
        visit_arms(arms.subrange(0, arms.len() - 1)) + visit_terms(arms[arms.len() - 1].0)
            + visit_terms(arms[arms.len() - 1].1)
    }
}

/// `f` took `states[k]` and `a[k]` to `states[k + 1]` and `b[k]`, for every `k`.
#[verifier::opaque]
pub open spec fn threaded<S, F: Fn(S, &Terminal) -> (S, Terminal)>(
    f: F,
    states: Seq<S>,
    a: Seq<Terminal>,
    b: Seq<Terminal>,
) -> bool {
    &&& a.len() == b.len()
    &&& states.len() == a.len() + 1
    &&& forall|k: int|
        0 <= k < a.len() ==> f.ensures((#[trigger] states[k], &a[k]), (states[k + 1], b[k]))
}

proof fn lemma_threaded_concat<S, F: Fn(S, &Terminal) -> (S, Terminal)>(
    f: F,
    s1: Seq<S>,
    a1: Seq<Terminal>,
    b1: Seq<Terminal>,
    s2: Seq<S>,
    a2: Seq<Terminal>,
    b2: Seq<Terminal>,
)
    requires
        threaded(f, s1, a1, b1),
        threaded(f, s2, a2, b2),
        s1.last() == s2[0],
    ensures
        threaded(f, s1 + s2.drop_first(), a1 + a2, b1 + b2),
        (s1 + s2.drop_first())[0] == s1[0],
        (s1 + s2.drop_first()).last() == s2.last(),
{
    reveal(threaded);
    let st = s1 + s2.drop_first();
    assert forall|k: int| 0 <= k < (a1 + a2).len() implies f.ensures(
        (#[trigger] st[k], &(a1 + a2)[k]),
        (st[k + 1], (b1 + b2)[k]),
    ) by {
        if k < a1.len() {
            assert(st[k] == s1[k]);
            if k + 1 < s1.len() {
                assert(st[k + 1] == s1[k + 1]);
            } else {
                assert(st[k + 1] == s1[k + 1]);
            }
        } else {
            let m = k - a1.len();
            assert(st[k] == s2[m]);
            assert(st[k + 1] == s2[m + 1]);
            assert(f.ensures((s2[m], &a2[m]), (s2[m + 1], b2[m])));
        }
    }
}

proof fn lemma_threaded_concat2<S, F: Fn(S, &Terminal) -> (S, Terminal)>(
    f: F,
    s1: Seq<S>,
    a1: Seq<Terminal>,
    b1: Seq<Terminal>,
    s2: Seq<S>,
    a2: Seq<Terminal>,
    b2: Seq<Terminal>,
    s3: Seq<S>,
    a3: Seq<Terminal>,
    b3: Seq<Terminal>,
)
    requires
        threaded(f, s1, a1, b1),
        threaded(f, s2, a2, b2),
        threaded(f, s3, a3, b3),
        s1.last() == s2[0],
        s2.last() == s3[0],
    ensures
        threaded(f, s1 + s2.drop_first() + s3.drop_first(), a1 + a2 + a3, b1 + b2 + b3),
        (s1 + s2.drop_first() + s3.drop_first())[0] == s1[0],
        (s1 + s2.drop_first() + s3.drop_first()).last() == s3.last(),
{
    lemma_threaded_concat(f, s1, a1, b1, s2, a2, b2);
    lemma_threaded_concat(f, s1 + s2.drop_first(), a1 + a2, b1 + b2, s3, a3, b3);
}

impl Expression {
    /// Like `map`, with a state threaded through `f` in a fixed order: the
    /// head before the children of an application, and for a match the
    /// scrutinee first, then each arm's pattern before its body. Returns the
    /// new tree and the final state.
    pub fn map_with<S, F: Fn(S, &Terminal) -> (S, Terminal)>(&self, state: S, f: &F) -> (r: (
        Expression,
        S,
    ))
        requires
            forall|s: S, t: &Terminal| f.requires((s, t)),
        ensures
            same_shape(r.0@, self@),
            exists|states: Seq<S>|
                threaded(*f, states, visit_terms(*self), visit_terms(r.0)) && states[0] == state
                    && states.last() == r.1,
        decreases self,
    {
        match self {
            Expression::Leaf(t) => {
                let (st, nt) = f(state, t);
                let r = Expression::Leaf(nt);
                proof {
                    reveal(threaded);
                    let states = seq![state, st];
                    assert(threaded(*f, states, visit_terms(*self), visit_terms(r)));
                    assert(states[0] == state && states.last() == st);
                }
                (r, st)
            },
            Expression::Op(t, cs) => {
                let (st0, nt) = f(state, t);
                let mut st = st0;
                let ghost mut states: Seq<S> = seq![state, st0];
                let mut ncs: Vec<Expression> = Vec::new();
                let mut i: usize = 0;
                proof {
                    assert(visit_list(cs@.subrange(0, 0)) =~= seq![]);
                    assert(visit_list(ncs@) =~= seq![]);
                    reveal(threaded);
                    assert(threaded(*f, states, seq![*t], seq![nt]));
                    assert(seq![*t] + visit_list(cs@.subrange(0, 0)) =~= seq![*t]);
                    assert(seq![nt] + visit_list(ncs@) =~= seq![nt]);
                }
                while i < cs.len()
                    invariant
                        i <= cs.len(),
                        *self is Op,
                        (*self)->Op_1 == *cs,
                        forall|s: S, t: &Terminal| f.requires((s, t)),
                        ncs@.len() == i,
                        forall|k: int| 0 <= k < i ==> same_shape(#[trigger] ncs@[k]@, cs@[k]@),
                        threaded(
                            *f,
                            states,
                            seq![*t] + visit_list(cs@.subrange(0, i as int)),
                            seq![nt] + visit_list(ncs@),
                        ),
                        states[0] == state,
                        states.last() == st,
                    decreases cs.len() - i,
                {
                    proof {
                        assert(decreases_to!(*self => (*self)->Op_1));
                        assert(decreases_to!(*cs => cs[i as int]));
                    }
                    let ghost before = st;
                    let (c, st2) = cs[i].map_with(st, f);
                    let ghost prev = ncs@;
                    ncs.push(c);
                    proof {
                        let sub = choose|sub: Seq<S>|
                            threaded(*f, sub, visit_terms(cs@[i as int]), visit_terms(c)) && sub[0]
                                == before && sub.last() == st2;
                        lemma_threaded_concat(
                            *f,
                            states,
                            seq![*t] + visit_list(cs@.subrange(0, i as int)),
                            seq![nt] + visit_list(prev),
                            sub,
                            visit_terms(cs@[i as int]),
                            visit_terms(c),
                        );
                        states = states + sub.drop_first();
                        let next = cs@.subrange(0, i as int + 1);
                        assert(next.subrange(0, i as int) =~= cs@.subrange(0, i as int));
                        assert(ncs@.subrange(0, i as int) =~= prev);
                        assert(seq![*t] + visit_list(next) =~= seq![*t] + visit_list(
                            cs@.subrange(0, i as int),
                        ) + visit_terms(cs@[i as int]));
                        assert(seq![nt] + visit_list(ncs@) =~= seq![nt] + visit_list(prev) + visit_terms(c));
                    }
                    st = st2;
                    i = i + 1;
                }
                assert(cs@.subrange(0, cs.len() as int) =~= cs@);
                let r = Expression::Op(nt, ncs);
                proof {
                    assert(forall|k: int| 0 <= k < cs.len() ==> #[trigger] r@->Op_1[k] == ncs@[k]@);
                    assert(forall|k: int| 0 <= k < cs.len() ==> #[trigger] self@->Op_1[k] == cs@[k]@);
                    assert(threaded(*f, states, visit_terms(*self), visit_terms(r)));
                    assert(states[0] == state && states.last() == st);
                }
                (r, st)
            },
            Expression::Match(s, arms) => {
                let (ns, st0) = s.map_with(state, f);
                let mut st = st0;
                let ghost mut states: Seq<S> = choose|sub: Seq<S>|
                    threaded(*f, sub, visit_terms(**s), visit_terms(ns)) && sub[0] == state
                        && sub.last() == st0;
                let mut narms: Vec<(Expression, Expression)> = Vec::new();
                let mut i: usize = 0;
                proof {
                    assert(visit_arms(arms@.subrange(0, 0)) =~= seq![]);
                    assert(visit_arms(narms@) =~= seq![]);
                    assert(visit_terms(**s) + visit_arms(arms@.subrange(0, 0)) =~= visit_terms(**s));
                    assert(visit_terms(ns) + visit_arms(narms@) =~= visit_terms(ns));
                }
                while i < arms.len()
                    invariant
                        i <= arms.len(),
                        *self is Match,
                        (*self)->Match_1 == *arms,
                        forall|s: S, t: &Terminal| f.requires((s, t)),
                        narms@.len() == i,
                        forall|k: int|
                            0 <= k < i ==> same_shape((#[trigger] narms@[k]).0@, arms@[k].0@)
                                && same_shape(narms@[k].1@, arms@[k].1@),
                        threaded(
                            *f,
                            states,
                            visit_terms(**s) + visit_arms(arms@.subrange(0, i as int)),
                            visit_terms(ns) + visit_arms(narms@),
                        ),
                        states[0] == state,
                        states.last() == st,
                    decreases arms.len() - i,
                {
                    proof {
                        assert(decreases_to!(*self => (*self)->Match_1));
                        assert(decreases_to!(*arms => arms[i as int]));
                        assert(decreases_to!(arms[i as int] => arms[i as int].0));
                        assert(decreases_to!(arms[i as int] => arms[i as int].1));
                    }
                    let ghost before = st;
                    let (p, st1) = arms[i].0.map_with(st, f);
                    let (b, st2) = arms[i].1.map_with(st1, f);
                    let ghost prev = narms@;
                    narms.push((p, b));
                    proof {
                        let sp = choose|sub: Seq<S>|
                            threaded(*f, sub, visit_terms(arms@[i as int].0), visit_terms(p)) && sub[0]
                                == before && sub.last() == st1;
                        let sb = choose|sub: Seq<S>|
                            threaded(*f, sub, visit_terms(arms@[i as int].1), visit_terms(b)) && sub[0]
                                == st1 && sub.last() == st2;
                        let pre_a = visit_terms(**s) + visit_arms(arms@.subrange(0, i as int));
                        let pre_b = visit_terms(ns) + visit_arms(prev);
                        lemma_threaded_concat2(
                            *f,
                            states,
                            pre_a,
                            pre_b,
                            sp,
                            visit_terms(arms@[i as int].0),
                            visit_terms(p),
                            sb,
                            visit_terms(arms@[i as int].1),
                            visit_terms(b),
                        );
                        let mid = states + sp.drop_first();
                        states = mid + sb.drop_first();
                        let next = arms@.subrange(0, i as int + 1);
                        assert(next.subrange(0, i as int) =~= arms@.subrange(0, i as int));
                        assert(narms@.subrange(0, i as int) =~= prev);
                        assert(visit_terms(**s) + visit_arms(next) =~= pre_a + visit_terms(arms@[i as int].0)
                            + visit_terms(arms@[i as int].1));
                        assert(visit_terms(ns) + visit_arms(narms@) =~= pre_b + visit_terms(p) + visit_terms(b));
                    }
                    st = st2;
                    i = i + 1;
                }
                assert(arms@.subrange(0, arms.len() as int) =~= arms@);
                let r = Expression::Match(Box::new(ns), narms);
                proof {
                    assert(forall|k: int| 0 <= k < arms.len() ==> #[trigger] r@->Match_1[k] == (narms@[k].0@, narms@[k].1@));
                    assert(forall|k: int| 0 <= k < arms.len() ==> #[trigger] self@->Match_1[k] == (arms@[k].0@, arms@[k].1@));
                    assert(threaded(*f, states, visit_terms(*self), visit_terms(r)));
                    assert(states[0] == state && states.last() == st);
                }
                (r, st)
            },
        }
    }
}

} // verus!
