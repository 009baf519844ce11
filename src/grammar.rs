use vstd::prelude::*;
use vstd::string::{StrSliceExecFns, StringExecFns};
use crate::ast::{Annotation, Constructor, Definitions, Expression, Parameter, Rewrite, Statement, Terminal};
use crate::parse_tools::{conflict_message, is_first_conflict, parse_datatype, roles_consistent};
use crate::ast::{sexp, term_model, terms};
use crate::roundtrip::{
    strip, strip_term,
    RuleSpec, is_rules_text, lemma_lex_rules, lemma_rule_in_rules, lemma_rules_end_mono, rules_end, rules_tokens,
    is_rule_text, lemma_lex_rule,
    lemma_same_terms_concat, lemma_same_terms_roles, lemma_terms_model, rule_scope, same_terms, statement_ends,
    lemma_rule_parts, rewrite_is, rule_at, rule_tokens,
    plain, plain_terminal, lemma_lex_exp,
    arms_offset, lemma_exp_tokens_shape, lemma_match_arm, lemma_match_end, lemma_match_scrutinee,
    lemma_op_child, lemma_op_end, starts_with_term,
};
use crate::scope::{check_statement, statement_scope};

verus! {

/// A token of the statement language.
#[derive(Debug, Clone, PartialEq, Eq)]
pub enum Token {
    LParen,
    RParen,
    Colon,
    /// `:=`
    Define,
    /// `->`
    Arrow,
    /// `=>`
    FatArrow,
    /// `<=>`
    BiArrow,
    /// `|>`
    SearchArrow,
    /// A line break, which ends a statement.
    Newline,
    /// `?name`
    HoleName(String),
    Name(String),
}

/// Why a text was refused.
#[derive(Debug, Clone, PartialEq, Eq)]
pub enum ParseError {
    /// A character that starts no token, at this character position.
    InvalidToken { location: usize },
    /// The text ended inside a statement or a term.
    UnrecognizedEof,
    /// A token that does not fit, at this token position.
    UnrecognizedToken { location: usize },
    /// A token after a complete statement or term, at this token position.
    ExtraToken { location: usize },
    /// A statement that breaks a rule of the language.
    User { error: String },
}

/// The mathematical value of a token.
pub enum TokModel {
    LParen,
    RParen,
    Colon,
    Define,
    Arrow,
    FatArrow,
    BiArrow,
    SearchArrow,
    Newline,
    HoleName(Seq<char>),
    Name(Seq<char>),
}

pub open spec fn tok_model(t: Token) -> TokModel {
    match t {
        Token::LParen => TokModel::LParen,
        Token::RParen => TokModel::RParen,
        Token::Colon => TokModel::Colon,
        Token::Define => TokModel::Define,
        Token::Arrow => TokModel::Arrow,
        Token::FatArrow => TokModel::FatArrow,
        Token::BiArrow => TokModel::BiArrow,
        Token::SearchArrow => TokModel::SearchArrow,
        Token::Newline => TokModel::Newline,
        Token::HoleName(n) => TokModel::HoleName(n@),
        Token::Name(n) => TokModel::Name(n@),
    }
}

pub open spec fn tok_models(ts: Seq<Token>) -> Seq<TokModel> {
    ts.map_values(|t: Token| tok_model(t))
}

/// The token of a terminal: a name, or a hole name.
pub open spec fn terminal_token(t: Terminal) -> TokModel {
    match t {
        Terminal::Id(n, _) => TokModel::Name(n@),
        Terminal::Hole(n, _) => TokModel::HoleName(n@),
    }
}

/// The tokens of a term written canonically.
pub open spec fn exp_tokens(e: Expression) -> Seq<TokModel>
    decreases e,
{
    match e {
        Expression::Leaf(t) => seq![terminal_token(t)],
        Expression::Op(t, cs) => seq![TokModel::LParen, terminal_token(t)] + list_tokens(cs@) + seq![
            TokModel::RParen,
        ],
        Expression::Match(s, arms) => seq![TokModel::LParen, TokModel::Name("match"@)] + exp_tokens(*s)
            + arms_tokens(arms@) + seq![TokModel::RParen],
    }
}

pub open spec fn list_tokens(cs: Seq<Expression>) -> Seq<TokModel>
    decreases cs,
{
    if cs.len() == 0 {
        seq![]
    } else {
        list_tokens(cs.subrange(0, cs.len() - 1)) + exp_tokens(cs[cs.len() - 1])
    }
}

/// Each arm written `( => pattern body )`.
pub open spec fn arms_tokens(arms: Seq<(Expression, Expression)>) -> Seq<TokModel>
    decreases arms,
{
    if arms.len() == 0 {
        seq![]
    } else {
        arms_tokens(arms.subrange(0, arms.len() - 1)) + seq![TokModel::LParen, TokModel::FatArrow]
            + exp_tokens(arms[arms.len() - 1].0) + exp_tokens(arms[arms.len() - 1].1) + seq![
            TokModel::RParen,
        ]
    }
}

pub open spec fn is_space(c: char) -> bool {
    c == ' ' || c == '\t' || c == '\r' || c == '\n'
}

/// A character that ends a name.
pub open spec fn is_delimiter(c: char) -> bool {
    is_space(c) || c == '(' || c == ')' || c == ':'
}

fn is_delimiter_char(c: char) -> (r: bool)
    ensures
        r == is_delimiter(c),
{
    c == ' ' || c == '\t' || c == '\r' || c == '\n' || c == '(' || c == ')' || c == ':'
}

/// Whether `s` holds exactly the text `w`.
fn is_word(s: &str, w: &str) -> (r: bool)
    ensures
        r == (s@ == w@),
{
    let a = String::from_str(s);
    let b = String::from_str(w);
    a == b
}

/// The end of the name that starts at `j`: the first delimiter at or after
/// `j`, or the end of the text.
pub open spec fn word_end(text: Seq<char>, j: int) -> int
    decreases text.len() - j,
{
    if j < 0 || j >= text.len() || is_delimiter(text[j]) {
        j
    } else {
        word_end(text, j + 1)
    }
}

/// The token of a word: an arrow, or a name.
pub open spec fn word_token(w: Seq<char>) -> TokModel {
    if w == "=>"@ {
        TokModel::FatArrow
    } else if w == "->"@ {
        TokModel::Arrow
    } else if w == "<=>"@ {
        TokModel::BiArrow
    } else if w == "|>"@ {
        TokModel::SearchArrow
    } else {
        TokModel::Name(w)
    }
}

pub open spec fn prepend(t: TokModel, rest: Option<Seq<TokModel>>) -> Option<Seq<TokModel>> {
    match rest {
        Some(r) => Some(seq![t] + r),
        None => None,
    }
}

/// The tokens of `text` from character `i` on, or `None` where a `?` is
/// followed by no name. Line breaks are tokens where `lines` holds.
pub open spec fn lex_from(text: Seq<char>, i: int, lines: bool) -> Option<Seq<TokModel>>
    decreases text.len() - i,
{
    if i < 0 || i >= text.len() {
        Some(seq![])
    } else {
        let c = text[i];
        if c == '\n' && lines {
            prepend(TokModel::Newline, lex_from(text, i + 1, lines))
        } else if is_space(c) {
            lex_from(text, i + 1, lines)
        } else if c == '(' {
            prepend(TokModel::LParen, lex_from(text, i + 1, lines))
        } else if c == ')' {
            prepend(TokModel::RParen, lex_from(text, i + 1, lines))
        } else if c == ':' {
            if i + 1 < text.len() && text[i + 1] == '=' {
                prepend(TokModel::Define, lex_from(text, i + 2, lines))
            } else {
                prepend(TokModel::Colon, lex_from(text, i + 1, lines))
            }
        } else {
            let start = if c == '?' {
                i + 1
            } else {
                i
            };
            let end = word_end(text, start);
            if end <= start || end > text.len() {
                None
            } else {
                let w = text.subrange(start, end);
                prepend(
                    if c == '?' {
                        TokModel::HoleName(w)
                    } else {
                        word_token(w)
                    },
                    lex_from(text, end, lines),
                )
            }
        }
    }
}

pub open spec fn then_tokens(a: Seq<TokModel>, rest: Option<Seq<TokModel>>) -> Option<Seq<TokModel>> {
    match rest {
        Some(r) => Some(a + r),
        None => None,
    }
}

/// The token that a word stands for: an arrow, or a name.
fn classify_word(word: &str) -> (r: Token)
    ensures
        tok_model(r) == word_token(word@),
{
    if is_word(word, "=>") {
        Token::FatArrow
    } else if is_word(word, "->") {
        Token::Arrow
    } else if is_word(word, "<=>") {
        Token::BiArrow
    } else if is_word(word, "|>") {
        Token::SearchArrow
    } else {
        Token::Name(String::from_str(word))
    }
}

/// Splits a text into tokens. Line breaks become `Newline` tokens where
/// `lines` holds, and separate tokens like other spaces otherwise.
pub fn lex(text: &str, lines: bool) -> (r: Result<Vec<Token>, ParseError>)
    ensures
        r matches Err(err) ==> !(err is User),
        match r {
            Ok(ts) => lex_from(text@, 0, lines) == Some(tok_models(ts@)),
            Err(_) => lex_from(text@, 0, lines) is None,
        },
{
    let n = text.unicode_len();
    let mut toks: Vec<Token> = Vec::new();
    let mut i: usize = 0;
    assert(tok_models(toks@) =~= seq![]);
    assert(then_tokens(seq![], lex_from(text@, 0, lines)) == lex_from(text@, 0, lines)) by {
        match lex_from(text@, 0, lines) {
            Some(x) => {
                assert(seq![] + x =~= x);
            },
            None => {},
        }
    }
    while i < n
        invariant
            i <= n,
            n == text@.len(),
            lex_from(text@, 0, lines) == then_tokens(tok_models(toks@), lex_from(text@, i as int, lines)),
        decreases n - i,
    {
        let ghost before = tok_models(toks@);
        let c = text.get_char(i);
        let mut next: usize = i + 1;
        if c == '\n' && lines {
            toks.push(Token::Newline);
        } else if c == ' ' || c == '\t' || c == '\r' || c == '\n' {
        } else if c == '(' {
            toks.push(Token::LParen);
        } else if c == ')' {
            toks.push(Token::RParen);
        } else if c == ':' {
            if i + 1 < n && text.get_char(i + 1) == '=' {
                toks.push(Token::Define);
                next = i + 2;
            } else {
                toks.push(Token::Colon);
            }
        } else {
            let start: usize = if c == '?' {
                i + 1
            } else {
                i
            };
            let mut end: usize = start;
            while end < n && !is_delimiter_char(text.get_char(end))
                invariant
                    start <= end <= n,
                    n == text@.len(),
                    word_end(text@, start as int) == word_end(text@, end as int),
                decreases n - end,
            {
                end = end + 1;
            }
            if end == start {
                return Err(ParseError::InvalidToken { location: i });
            }
            let word = text.substring_char(start, end);
            if c == '?' {
                toks.push(Token::HoleName(String::from_str(word)));
            } else {
                toks.push(classify_word(word));
            }
            next = end;
        }
        proof {
            let added = tok_models(toks@);
            if added.len() == before.len() {
                assert(added =~= before);
            } else {
                assert(added =~= before + seq![added.last()]);
                match lex_from(text@, next as int, lines) {
                    Some(x) => {
                        assert(before + (seq![added.last()] + x) =~= added + x);
                    },
                    None => {},
                }
            }
        }
        i = next;
    }
    assert(lex_from(text@, i as int, lines) == Some(Seq::<TokModel>::empty()));
    assert(tok_models(toks@) + seq![] =~= tok_models(toks@));
    Ok(toks)
}

/// Whether the token at `pos` is `(`.
fn at_lparen(toks: &Vec<Token>, pos: usize) -> (r: bool)
    ensures
        r == (pos < toks.len() && toks@[pos as int] is LParen),
{
    pos < toks.len() && matches!(toks[pos], Token::LParen)
}

fn at_rparen(toks: &Vec<Token>, pos: usize) -> (r: bool)
    ensures
        r == (pos < toks.len() && toks@[pos as int] is RParen),
{
    pos < toks.len() && matches!(toks[pos], Token::RParen)
}

/// Steps past the token at `pos` where `found` says it is the one expected.
fn expect(toks: &Vec<Token>, pos: usize, found: bool) -> (r: Result<usize, ParseError>)
    requires
        pos <= toks.len(),
        found ==> pos < toks.len(),
    ensures
        r matches Err(err) ==> !(err is User),
        r matches Ok(p) ==> p == pos + 1 && p <= toks.len(),
        r is Ok <==> found,
{
    if found {
        Ok(pos + 1)
    } else if pos >= toks.len() {
        Err(ParseError::UnrecognizedEof)
    } else {
        Err(ParseError::UnrecognizedToken { location: pos })
    }
}

/// The name at `pos`, if a name stands there.
fn name_at(toks: &Vec<Token>, pos: usize) -> (r: Result<String, ParseError>)
    ensures
        r matches Err(err) ==> !(err is User),
        r matches Ok(s) ==> pos < toks.len() && toks@[pos as int] == Token::Name(s),
        pos < toks.len() && toks@[pos as int] is Name ==> r is Ok,
{
    if pos >= toks.len() {
        return Err(ParseError::UnrecognizedEof);
    }
    match &toks[pos] {
        Token::Name(s) => Ok(s.clone()),
        _ => Err(ParseError::UnrecognizedToken { location: pos }),
    }
}

/// Parses one term starting at `pos`; returns it with the position after it.
/// The term, written canonically, has exactly the tokens consumed; and where
/// the tokens at `pos` begin with those of a plain term, that term comes back
/// without its annotations.
pub fn parse_exp(toks: &Vec<Token>, pos: usize) -> (r: Result<(Expression, usize), ParseError>)
    requires
        pos <= toks.len(),
    ensures
        r matches Err(err) ==> !(err is User),
        r matches Ok((e, p)) ==> pos < p <= toks.len() && exp_tokens(e) == tok_models(toks@).subrange(
            pos as int,
            p as int,
        ),
        forall|e: Expression|
            #[trigger] starts_with_term(tok_models(toks@), pos as int, e) ==> (r matches Ok((e2, p))
                && e2@ == strip(e@) && p == pos + exp_tokens(e).len()),
    decreases toks.len() - pos,
{
    let ghost ms = tok_models(toks@);
    if pos >= toks.len() {
        proof {
            assert forall|e: Expression| #[trigger] starts_with_term(ms, pos as int, e) implies false by {
                lemma_exp_tokens_shape(e);
            }
        }
        return Err(ParseError::UnrecognizedEof);
    }
    proof {
        assert(ms[pos as int] == tok_model(toks@[pos as int]));
        if pos + 1 < toks.len() {
            assert(ms[pos + 1] == tok_model(toks@[pos + 1]));
        }
        assert forall|e: Expression| #[trigger] starts_with_term(ms, pos as int, e) implies ms[pos as int]
            == exp_tokens(e)[0] && (exp_tokens(e).len() > 1 ==> ms[pos + 1] == exp_tokens(e)[1]) by {
            lemma_exp_tokens_shape(e);
            assert(ms.subrange(pos as int, pos + exp_tokens(e).len())[0] == ms[pos as int]);
            if exp_tokens(e).len() > 1 {
                assert(ms.subrange(pos as int, pos + exp_tokens(e).len())[1] == ms[pos + 1]);
            }
        }
    }
    match &toks[pos] {
        Token::Name(s) => {
            let e = Expression::Leaf(Terminal::Id(s.clone(), None));
            assert(exp_tokens(e) =~= ms.subrange(pos as int, pos + 1));
            proof {
                assert(ms[pos as int] == TokModel::Name(s@));
                assert forall|x: Expression| #[trigger] starts_with_term(ms, pos as int, x) implies e@ == strip(x@)
                    && pos + 1 == pos + exp_tokens(x).len() by {
                    lemma_exp_tokens_shape(x);
                    assert(x is Leaf);
                    assert(plain_terminal(x->Leaf_0, false));
                    assert(terminal_token(x->Leaf_0) == TokModel::Name(s@));
                    assert(exp_tokens(x).len() == 1);
                    assert(x->Leaf_0 is Id);
                    assert(x->Leaf_0->Id_0@ == s@);
                    assert(strip_term(term_model(x->Leaf_0)) == term_model(e->Leaf_0));
                }
            }
            Ok((e, pos + 1))
        },
        Token::HoleName(s) => {
            let e = Expression::Leaf(Terminal::Hole(s.clone(), None));
            assert(exp_tokens(e) =~= ms.subrange(pos as int, pos + 1));
            proof {
                assert(ms[pos as int] == TokModel::HoleName(s@));
                assert forall|x: Expression| #[trigger] starts_with_term(ms, pos as int, x) implies e@ == strip(x@)
                    && pos + 1 == pos + exp_tokens(x).len() by {
                    lemma_exp_tokens_shape(x);
                    assert(x is Leaf);
                    assert(plain_terminal(x->Leaf_0, false));
                    assert(terminal_token(x->Leaf_0) == TokModel::HoleName(s@));
                    assert(exp_tokens(x).len() == 1);
                    assert(x->Leaf_0 is Hole);
                    assert(x->Leaf_0->Hole_0@ == s@);
                    assert(strip_term(term_model(x->Leaf_0)) == term_model(e->Leaf_0));
                }
            }
            Ok((e, pos + 1))
        },
        Token::LParen => {
            if pos + 1 >= toks.len() {
                proof {
                    assert forall|x: Expression| #[trigger] starts_with_term(ms, pos as int, x) implies false by {
                        lemma_exp_tokens_shape(x);
                    }
                }
                return Err(ParseError::UnrecognizedEof);
            }
            let head = match &toks[pos + 1] {
                Token::Name(s) => {
                    if is_word(s.as_str(), "match") {
                        return parse_match(toks, pos);
                    }
                    Terminal::Id(s.clone(), None)
                },
                Token::HoleName(s) => Terminal::Hole(s.clone(), None),
                _ => {
                    proof {
                        assert forall|x: Expression| #[trigger] starts_with_term(ms, pos as int, x) implies false by {
                            lemma_exp_tokens_shape(x);
                        }
                    }
                    return Err(ParseError::UnrecognizedToken { location: pos + 1 });
                },
            };
            proof {
                assert forall|x: Expression| #[trigger] starts_with_term(ms, pos as int, x) implies x is Op
                    && strip_term(term_model(x->Op_0)) == term_model(head) by {
                    lemma_exp_tokens_shape(x);
                    reveal_strlit("match");
                }
            }
            let mut children: Vec<Expression> = Vec::new();
            let mut p: usize = pos + 2;
            assert(ms.subrange(pos as int, p as int) =~= seq![TokModel::LParen, terminal_token(head)]
                + list_tokens(children@));
            proof {
                assert forall|x: Expression| #[trigger] starts_with_term(ms, pos as int, x) implies p == pos + 2
                    + list_tokens(x->Op_1@.subrange(0, 0)).len() by {
                    assert(x->Op_1@.subrange(0, 0) =~= seq![]);
                }
            }
            while !at_rparen(toks, p)
                invariant
                    pos + 2 <= p <= toks.len(),
                    ms == tok_models(toks@),
                    ms.subrange(pos as int, p as int) == seq![TokModel::LParen, terminal_token(head)]
                        + list_tokens(children@),
                    forall|x: Expression| #[trigger]
                        starts_with_term(ms, pos as int, x) ==> x is Op && strip_term(term_model(x->Op_0))
                            == term_model(head) && children.len() <= x->Op_1@.len() && (forall|j: int|
                            0 <= j < children.len() ==> (#[trigger] children@[j])@ == strip(x->Op_1@[j]@))
                            && p == pos + 2 + list_tokens(x->Op_1@.subrange(0, children.len() as int)).len(),
                decreases toks.len() - p,
            {
                proof {
                    assert forall|x: Expression| #[trigger] starts_with_term(ms, pos as int, x) implies children.len()
                        < x->Op_1@.len() && starts_with_term(ms, p as int, x->Op_1@[children.len() as int]) by {
                        lemma_op_end(ms, pos as int, x);
                        if children.len() == x->Op_1@.len() {
                            assert(false);
                        }
                        lemma_op_child(ms, pos as int, x, children.len() as int);
                    }
                }
                match parse_exp(toks, p) {
                    Ok((c, q)) => {
                        let ghost prev = children@;
                        let ghost p0 = p;
                        children.push(c);
                        proof {
                            assert(children@.subrange(0, children.len() - 1) =~= prev);
                            assert(ms.subrange(pos as int, q as int) =~= ms.subrange(pos as int, p as int)
                                + ms.subrange(p as int, q as int));
                            assert forall|x: Expression| #[trigger] starts_with_term(ms, pos as int, x) implies x is Op
                                && strip_term(term_model(x->Op_0)) == term_model(head) && children.len() <= x->Op_1@.len()
                                && (forall|j: int| 0 <= j < children.len() ==> (#[trigger] children@[j])@ == strip(x->Op_1@[j]@))
                                && q == pos + 2 + list_tokens(x->Op_1@.subrange(0, children.len() as int)).len() by {
                                let k = prev.len() as int;
                                lemma_op_child(ms, pos as int, x, k);
                                assert(starts_with_term(ms, p0 as int, x->Op_1@[k]));
                                assert forall|j: int| 0 <= j < children.len() implies (#[trigger] children@[j])@
                                    == strip(x->Op_1@[j]@) by {
                                    if j < k {
                                        assert(children@[j] == prev[j]);
                                    }
                                }
                            }
                        }
                        p = q;
                    },
                    Err(e) => {
                        return Err(e);
                    },
                }
            }
            let e = Expression::Op(head, children);
            assert(ms.subrange(pos as int, p + 1) =~= ms.subrange(pos as int, p as int) + seq![
                TokModel::RParen,
            ]);
            assert(exp_tokens(e) =~= ms.subrange(pos as int, p + 1));
            proof {
                assert forall|x: Expression| #[trigger] starts_with_term(ms, pos as int, x) implies e@ == strip(x@) && p + 1
                    == pos + exp_tokens(x).len() by {
                    lemma_op_end(ms, pos as int, x);
                    let n = children.len() as int;
                    if n < x->Op_1@.len() {
                        lemma_op_child(ms, pos as int, x, n);
                        lemma_exp_tokens_shape(x->Op_1@[n]);
                        assert(ms.subrange(p as int, p + exp_tokens(x->Op_1@[n]).len())[0] == ms[p as int]);
                        assert(false);
                    }
                    assert(e@->Op_1 =~= strip(x@)->Op_1) by {
                        assert forall|j: int| 0 <= j < n implies e@->Op_1[j] == strip(x@)->Op_1[j] by {
                            assert(children@[j]@ == strip(x->Op_1@[j]@));
                            assert(x@->Op_1[j] == x->Op_1@[j]@);
                        }
                    }
                }
            }
            Ok((e, p + 1))
        },
        _ => {
            proof {
                assert forall|x: Expression| #[trigger] starts_with_term(ms, pos as int, x) implies false by {
                    lemma_exp_tokens_shape(x);
                }
            }
            Err(ParseError::UnrecognizedToken { location: pos })
        },
    }
}

/// Parses `(match scrutinee (=> pattern body) ...)` starting at `pos`.
fn parse_match(toks: &Vec<Token>, pos: usize) -> (r: Result<(Expression, usize), ParseError>)
    requires
        pos + 2 <= toks.len(),
        toks@[pos as int] is LParen,
        tok_models(toks@)[pos + 1] == TokModel::Name("match"@),
    ensures
        r matches Err(err) ==> !(err is User),
        r matches Ok((e, p)) ==> pos < p <= toks.len() && exp_tokens(e) == tok_models(toks@).subrange(
            pos as int,
            p as int,
        ),
        forall|e: Expression|
            #[trigger] starts_with_term(tok_models(toks@), pos as int, e) ==> (r matches Ok((e2, p))
                && e2@ == strip(e@) && p == pos + exp_tokens(e).len()),
    decreases toks.len() - pos, 0nat,
{
    let ghost ms = tok_models(toks@);
    proof {
        assert forall|x: Expression| #[trigger] starts_with_term(ms, pos as int, x) implies x is Match by {
            lemma_exp_tokens_shape(x);
            assert(ms.subrange(pos as int, pos + exp_tokens(x).len())[0] == ms[pos as int]);
            assert(ms.subrange(pos as int, pos + exp_tokens(x).len())[1] == ms[pos + 1]);
            reveal_strlit("match");
        }
    }
    let sp = pos + 2;
    proof {
        assert forall|x: Expression| #[trigger] starts_with_term(ms, pos as int, x) implies starts_with_term(
            ms,
            sp as int,
            *x->Match_0,
        ) by {
            lemma_match_scrutinee(ms, pos as int, x);
        }
    }
    let (scrutinee, mut p) = match parse_exp(toks, sp) {
        Ok(x) => x,
        Err(e) => {
            return Err(e);
        },
    };
    let mut arms: Vec<(Expression, Expression)> = Vec::new();
    let ghost lead = seq![TokModel::LParen, TokModel::Name("match"@)] + exp_tokens(scrutinee);
    assert(ms.subrange(pos as int, p as int) =~= lead + arms_tokens(arms@));
    proof {
        assert forall|x: Expression| #[trigger] starts_with_term(ms, pos as int, x) implies p == pos + arms_offset(
            x,
            0,
        ) by {
            assert(x->Match_1@.subrange(0, 0) =~= seq![]);
        }
    }
    while !at_rparen(toks, p)
        invariant
            pos + 2 < p <= toks.len(),
            ms == tok_models(toks@),
            ms.subrange(pos as int, p as int) == lead + arms_tokens(arms@),
            forall|x: Expression| #[trigger]
                starts_with_term(ms, pos as int, x) ==> x is Match && strip((*x->Match_0)@) == scrutinee@
                    && arms.len() <= x->Match_1@.len() && (forall|j: int|
                    0 <= j < arms.len() ==> (#[trigger] arms@[j]).0@ == strip(x->Match_1@[j].0@) && arms@[j].1@
                        == strip(x->Match_1@[j].1@)) && p == pos + arms_offset(x, arms.len() as int),
        decreases toks.len() - p,
    {
        let p0 = p;
        proof {
            assert forall|x: Expression| #[trigger] starts_with_term(ms, pos as int, x) implies arms.len()
                < x->Match_1@.len() by {
                lemma_match_end(ms, pos as int, x);
            }
            assert forall|x: Expression| #[trigger] starts_with_term(ms, pos as int, x) implies p + 1 < toks.len()
                && toks@[p as int] is LParen && toks@[p + 1] is FatArrow && starts_with_term(
                ms,
                p + 2,
                x->Match_1@[arms.len() as int].0,
            ) by {
                lemma_match_arm(ms, pos as int, x, arms.len() as int);
                assert(ms[p as int] == tok_model(toks@[p as int]));
                assert(ms[p + 1] == tok_model(toks@[p + 1]));
            }
        }
        p = match expect(toks, p, at_lparen(toks, p)) {
            Ok(q) => q,
            Err(e) => {
                return Err(e);
            },
        };
        let arrow = p < toks.len() && matches!(toks[p], Token::FatArrow);
        p = match expect(toks, p, arrow) {
            Ok(q) => q,
            Err(e) => {
                return Err(e);
            },
        };
        let (pattern, q1) = match parse_exp(toks, p) {
            Ok(x) => x,
            Err(e) => {
                return Err(e);
            },
        };
        proof {
            assert forall|x: Expression| #[trigger] starts_with_term(ms, pos as int, x) implies starts_with_term(
                ms,
                q1 as int,
                x->Match_1@[arms.len() as int].1,
            ) by {
                lemma_match_arm(ms, pos as int, x, arms.len() as int);
            }
        }
        let (body, q2) = match parse_exp(toks, q1) {
            Ok(x) => x,
            Err(e) => {
                return Err(e);
            },
        };
        proof {
            assert forall|x: Expression| #[trigger] starts_with_term(ms, pos as int, x) implies q2 < toks.len()
                && toks@[q2 as int] is RParen by {
                lemma_match_arm(ms, pos as int, x, arms.len() as int);
                assert(ms[q2 as int] == tok_model(toks@[q2 as int]));
            }
        }
        p = match expect(toks, q2, at_rparen(toks, q2)) {
            Ok(q) => q,
            Err(e) => {
                return Err(e);
            },
        };
        let ghost prev = arms@;
        arms.push((pattern, body));
        proof {
            assert(arms@.subrange(0, arms.len() - 1) =~= prev);
            assert(ms.subrange(p0 as int, p as int) =~= seq![TokModel::LParen, TokModel::FatArrow]
                + ms.subrange(p0 + 2, q1 as int) + ms.subrange(q1 as int, q2 as int) + seq![
                TokModel::RParen,
            ]);
            assert(ms.subrange(pos as int, p as int) =~= ms.subrange(pos as int, p0 as int)
                + ms.subrange(p0 as int, p as int));
            assert forall|x: Expression| #[trigger] starts_with_term(ms, pos as int, x) implies x is Match
                && strip((*x->Match_0)@) == scrutinee@ && arms.len() <= x->Match_1@.len() && (forall|j: int|
                0 <= j < arms.len() ==> (#[trigger] arms@[j]).0@ == strip(x->Match_1@[j].0@) && arms@[j].1@
                    == strip(x->Match_1@[j].1@)) && p == pos + arms_offset(x, arms.len() as int) by {
                let k = prev.len() as int;
                lemma_match_arm(ms, pos as int, x, k);
                assert forall|j: int| 0 <= j < arms.len() implies (#[trigger] arms@[j]).0@ == strip(x->Match_1@[j].0@)
                    && arms@[j].1@ == strip(x->Match_1@[j].1@) by {
                    if j < k {
                        assert(arms@[j] == prev[j]);
                    }
                }
            }
        }
    }
    let e = Expression::Match(Box::new(scrutinee), arms);
    assert(ms.subrange(pos as int, p + 1) =~= ms.subrange(pos as int, p as int) + seq![TokModel::RParen]);
    assert(exp_tokens(e) =~= ms.subrange(pos as int, p + 1));
    proof {
        assert forall|x: Expression| #[trigger] starts_with_term(ms, pos as int, x) implies e@ == strip(x@) && p + 1
            == pos + exp_tokens(x).len() by {
            lemma_match_end(ms, pos as int, x);
            let n = arms.len() as int;
            if n < x->Match_1@.len() {
                lemma_match_arm(ms, pos as int, x, n);
                assert(false);
            }
            assert(e@->Match_1 =~= strip(x@)->Match_1) by {
                assert forall|j: int| 0 <= j < n implies e@->Match_1[j] == strip(x@)->Match_1[j] by {
                    assert(arms@[j].0@ == strip(x->Match_1@[j].0@));
                    assert(x@->Match_1[j] == (x->Match_1@[j].0@, x->Match_1@[j].1@));
                }
            }
        }
    }
    Ok((e, p + 1))
}

/// Whether a statement may end at `pos`: at the end or at a line break.
fn at_statement_end(toks: &Vec<Token>, pos: usize) -> (r: bool)
    ensures
        r == (pos >= toks.len() || toks@[pos as int] is Newline),
{
    pos >= toks.len() || matches!(toks[pos], Token::Newline)
}

/// Parses `name : type`, or the same in parentheses, starting at `pos`.
fn parse_parameter(toks: &Vec<Token>, pos: usize) -> (r: Result<(Parameter, usize), ParseError>)
    requires
        pos <= toks.len(),
    ensures
        r matches Err(err) ==> !(err is User),
        r matches Ok((_, p)) ==> pos < p <= toks.len(),
{
    let paren = at_lparen(toks, pos);
    let mut p: usize = if paren {
        pos + 1
    } else {
        pos
    };
    let name = match name_at(toks, p) {
        Ok(n) => n,
        Err(e) => {
            return Err(e);
        },
    };
    p = p + 1;
    let colon = p < toks.len() && matches!(toks[p], Token::Colon);
    p = match expect(toks, p, colon) {
        Ok(q) => q,
        Err(e) => {
            return Err(e);
        },
    };
    let (ty, q) = match parse_exp(toks, p) {
        Ok(x) => x,
        Err(e) => {
            return Err(e);
        },
    };
    p = q;
    if paren {
        p = match expect(toks, p, at_rparen(toks, p)) {
            Ok(q) => q,
            Err(e) => {
                return Err(e);
            },
        };
    }
    Ok(((name, Annotation::Type(ty)), p))
}

/// Parses `(name : field -> ... -> field)` starting at `pos`.
fn parse_constructor(toks: &Vec<Token>, pos: usize) -> (r: Result<(Constructor, usize), ParseError>)
    requires
        pos <= toks.len(),
    ensures
        r matches Err(err) ==> !(err is User),
        r matches Ok((_, p)) ==> pos < p <= toks.len(),
{
    let mut p = match expect(toks, pos, at_lparen(toks, pos)) {
        Ok(q) => q,
        Err(e) => {
            return Err(e);
        },
    };
    let name = match name_at(toks, p) {
        Ok(n) => n,
        Err(e) => {
            return Err(e);
        },
    };
    p = p + 1;
    let colon = p < toks.len() && matches!(toks[p], Token::Colon);
    p = match expect(toks, p, colon) {
        Ok(q) => q,
        Err(e) => {
            return Err(e);
        },
    };
    let mut fields: Vec<Parameter> = Vec::new();
    loop
        invariant
            pos < p <= toks.len(),
        decreases toks.len() - p,
    {
        let (field, q) = match parse_parameter(toks, p) {
            Ok(x) => x,
            Err(e) => {
                return Err(e);
            },
        };
        fields.push(field);
        p = q;
        if p < toks.len() && matches!(toks[p], Token::Arrow) {
            p = p + 1;
        } else {
            break;
        }
    }
    p = match expect(toks, p, at_rparen(toks, p)) {
        Ok(q) => q,
        Err(e) => {
            return Err(e);
        },
    };
    Ok(((name, fields), p))
}

/// Parses `rw name source arrow destination`, after the keyword at `pos`.
fn parse_rewrite(toks: &Vec<Token>, pos: usize) -> (r: Result<(Statement, usize), ParseError>)
    requires
        pos < toks.len(),
    ensures
        r matches Err(err) ==> !(err is User),
        r matches Ok((_, p)) ==> pos < p <= toks.len(),
        forall|n: Seq<char>, src: Expression, arrow: TokModel, dst: Expression|
            #[trigger] rule_at(tok_models(toks@), pos as int, n, src, arrow, dst) ==> (r matches Ok(
                (Statement::RewriteDef(n2, rw), p),
            ) && n2@ == n && rewrite_is(rw, arrow, src, dst) && p == pos + rule_tokens(
                n,
                src,
                arrow,
                dst,
            ).len()),
{
    let ghost ms = tok_models(toks@);
    proof {
        assert forall|n: Seq<char>, src: Expression, arrow: TokModel, dst: Expression|
            #[trigger] rule_at(ms, pos as int, n, src, arrow, dst) implies pos + 1 < toks.len() && toks@[pos + 1]
            == Token::Name(toks@[pos + 1]->Name_0) && toks@[pos + 1]->Name_0@ == n && starts_with_term(
            ms,
            pos + 2,
            src,
        ) by {
            lemma_rule_parts(ms, pos as int, n, src, arrow, dst);
            assert(ms[pos + 1] == tok_model(toks@[pos + 1]));
        }
    }
    let name = match name_at(toks, pos + 1) {
        Ok(n) => n,
        Err(e) => {
            return Err(e);
        },
    };
    let sp = pos + 2;
    let (source, p) = match parse_exp(toks, sp) {
        Ok(x) => x,
        Err(e) => {
            return Err(e);
        },
    };
    proof {
        assert forall|n: Seq<char>, src: Expression, arrow: TokModel, dst: Expression|
            #[trigger] rule_at(ms, pos as int, n, src, arrow, dst) implies p < toks.len() && tok_model(toks@[p as int])
            == arrow && source@ == strip(src@) && starts_with_term(ms, p + 1, dst) by {
            lemma_rule_parts(ms, pos as int, n, src, arrow, dst);
            assert(ms[p as int] == tok_model(toks@[p as int]));
        }
    }
    if p >= toks.len() {
        return Err(ParseError::UnrecognizedEof);
    }
    let kind: u8 = match &toks[p] {
        Token::FatArrow => 0,
        Token::BiArrow => 1,
        Token::SearchArrow => 2,
        _ => {
            return Err(ParseError::UnrecognizedToken { location: p });
        },
    };
    let dp = p + 1;
    let (destination, q) = match parse_exp(toks, dp) {
        Ok(x) => x,
        Err(e) => {
            return Err(e);
        },
    };
    let rw = if kind == 0 {
        Rewrite::DRewrite(None, source, destination, Vec::new())
    } else if kind == 1 {
        Rewrite::BRewrite(None, source, destination, Vec::new())
    } else {
        Rewrite::AddSearcher(None, source, destination, Vec::new())
    };
    proof {
        assert forall|n: Seq<char>, src: Expression, arrow: TokModel, dst: Expression|
            #[trigger] rule_at(ms, pos as int, n, src, arrow, dst) implies name@ == n && rewrite_is(rw, arrow, src, dst)
            && q == pos + rule_tokens(n, src, arrow, dst).len() by {
            lemma_rule_parts(ms, pos as int, n, src, arrow, dst);
        }
    }
    Ok((Statement::RewriteDef(name, rw), q))
}

/// Parses `datatype name (params) := constructors`, after the keyword at `pos`.
fn parse_datatype_stmt(toks: &Vec<Token>, pos: usize) -> (r: Result<(Statement, usize), ParseError>)
    requires
        pos < toks.len(),
    ensures
        r matches Err(err) ==> !(err is User),
        r matches Ok((_, p)) ==> pos < p <= toks.len(),
{
    let name = match name_at(toks, pos + 1) {
        Ok(n) => n,
        Err(e) => {
            return Err(e);
        },
    };
    let mut p = match expect(toks, pos + 2, at_lparen(toks, pos + 2)) {
        Ok(q) => q,
        Err(e) => {
            return Err(e);
        },
    };
    let mut params: Vec<String> = Vec::new();
    while !at_rparen(toks, p)
        invariant
            pos < p <= toks.len(),
        decreases toks.len() - p,
    {
        let n = match name_at(toks, p) {
            Ok(n) => n,
            Err(e) => {
                return Err(e);
            },
        };
        params.push(n);
        p = p + 1;
    }
    p = p + 1;
    let define = p < toks.len() && matches!(toks[p], Token::Define);
    p = match expect(toks, p, define) {
        Ok(q) => q,
        Err(e) => {
            return Err(e);
        },
    };
    let mut constrs: Vec<Constructor> = Vec::new();
    while !at_statement_end(toks, p)
        invariant
            pos < p <= toks.len(),
        decreases toks.len() - p,
    {
        let (c, q) = match parse_constructor(toks, p) {
            Ok(x) => x,
            Err(e) => {
                return Err(e);
            },
        };
        constrs.push(c);
        p = q;
    }
    let type_params = if params.len() == 0 {
        None
    } else {
        let first = params.remove(0);
        Some((first, params))
    };
    match parse_datatype(name, type_params, constrs) {
        Some(s) => Ok((s, p)),
        None => Err(ParseError::UnrecognizedToken { location: pos }),
    }
}

/// Parses `fun name params -> type`, with an optional `=> body`, after the
/// keyword at `pos`.
fn parse_function(toks: &Vec<Token>, pos: usize) -> (r: Result<(Statement, usize), ParseError>)
    requires
        pos < toks.len(),
    ensures
        r matches Err(err) ==> !(err is User),
        r matches Ok((_, p)) ==> pos < p <= toks.len(),
{
    let name = match name_at(toks, pos + 1) {
        Ok(n) => n,
        Err(e) => {
            return Err(e);
        },
    };
    let mut p: usize = pos + 2;
    let mut params: Vec<Parameter> = Vec::new();
    while !(p < toks.len() && matches!(toks[p], Token::Arrow))
        invariant
            pos < p <= toks.len(),
        decreases toks.len() - p,
    {
        let (param, q) = match parse_parameter(toks, p) {
            Ok(x) => x,
            Err(e) => {
                return Err(e);
            },
        };
        params.push(param);
        p = q;
    }
    let (ret, q) = match parse_exp(toks, p + 1) {
        Ok(x) => x,
        Err(e) => {
            return Err(e);
        },
    };
    p = q;
    let mut body: Option<Expression> = None;
    if p < toks.len() && matches!(toks[p], Token::FatArrow) {
        let (b, q) = match parse_exp(toks, p + 1) {
            Ok(x) => x,
            Err(e) => {
                return Err(e);
            },
        };
        body = Some(b);
        p = q;
    }
    Ok((Statement::Function(name, params, Annotation::Type(ret), body), p))
}

/// Parses one statement starting at `pos`, up to a line break or the end,
/// and checks the roles of the names over its validation scope. A rule of
/// plain terms comes back exactly where its names are used consistently;
/// otherwise the error names the first conflicting identifier.
pub fn parse_statement(toks: &Vec<Token>, pos: usize) -> (r: Result<(Statement, usize), ParseError>)
    requires
        pos <= toks.len(),
    ensures
        r matches Ok((s, p)) ==> pos < p <= toks.len() && roles_consistent(statement_scope(s)),
        r matches Ok((_, p)) ==> p == toks.len() || toks@[p as int] is Newline,
        r matches Err(ParseError::User { error }) ==> exists|n: Seq<char>| error@ == conflict_message(n),
        forall|n: Seq<char>, src: Expression, arrow: TokModel, dst: Expression|
            #[trigger] rule_at(tok_models(toks@), pos as int, n, src, arrow, dst) && statement_ends(
                tok_models(toks@),
                pos + rule_tokens(n, src, arrow, dst).len(),
            ) ==> rule_outcome(r, pos + rule_tokens(n, src, arrow, dst).len(), n, src, arrow, dst),
{
    let ghost ms = tok_models(toks@);
    proof {
        assert forall|n: Seq<char>, src: Expression, arrow: TokModel, dst: Expression|
            #[trigger] rule_at(ms, pos as int, n, src, arrow, dst) implies pos < toks.len() && toks@[pos as int]
            is Name && toks@[pos as int]->Name_0@ == "rw"@ by {
            lemma_rule_parts(ms, pos as int, n, src, arrow, dst);
            assert(ms[pos as int] == tok_model(toks@[pos as int]));
        }
    }
    let keyword = match name_at(toks, pos) {
        Ok(n) => n,
        Err(e) => {
            return Err(e);
        },
    };
    let parsed = if is_word(keyword.as_str(), "rw") {
        parse_rewrite(toks, pos)
    } else if is_word(keyword.as_str(), "datatype") {
        parse_datatype_stmt(toks, pos)
    } else if is_word(keyword.as_str(), "fun") {
        parse_function(toks, pos)
    } else {
        Err(ParseError::UnrecognizedToken { location: pos })
    };
    let (stmt, p) = match parsed {
        Ok(x) => x,
        Err(e) => {
            return Err(e);
        },
    };
    proof {
        assert forall|n: Seq<char>, src: Expression, arrow: TokModel, dst: Expression|
            #[trigger] rule_at(ms, pos as int, n, src, arrow, dst) && statement_ends(
                ms,
                pos + rule_tokens(n, src, arrow, dst).len(),
            ) implies at_end_spec(toks@, p as int) && stmt_is_rule(stmt, n, src, arrow, dst)
            && p == pos + rule_tokens(n, src, arrow, dst).len() by {
            if p < toks.len() {
                assert(ms[p as int] == tok_model(toks@[p as int]));
            }
            match stmt {
                Statement::RewriteDef(_, rw) => {
                    let (s2, d2) = match rw {
                        Rewrite::DRewrite(_, a, b, _) => (a, b),
                        Rewrite::BRewrite(_, a, b, _) => (a, b),
                        Rewrite::AddSearcher(_, a, b, _) => (a, b),
                    };
                    lemma_terms_model(s2, src);
                    lemma_terms_model(d2, dst);
                    lemma_same_terms_concat(terms(s2), terms(src), terms(d2), terms(dst));
                    assert(statement_scope(stmt) =~= terms(s2) + terms(d2));
                },
                _ => {},
            }
        }
    }
    if !at_statement_end(toks, p) {
        return Err(ParseError::ExtraToken { location: p });
    }
    match check_statement(&stmt) {
        Ok(()) => {
            proof {
                assert forall|n: Seq<char>, src: Expression, arrow: TokModel, dst: Expression|
                    #[trigger] rule_at(ms, pos as int, n, src, arrow, dst) && statement_ends(
                        ms,
                        pos + rule_tokens(n, src, arrow, dst).len(),
                    ) implies roles_consistent(rule_scope(src, dst)) by {
                    lemma_same_terms_roles(statement_scope(stmt), rule_scope(src, dst));
                }
            }
            Ok((stmt, p))
        },
        Err(c) => {
            let error = c.message();
            proof {
                assert forall|n: Seq<char>, src: Expression, arrow: TokModel, dst: Expression|
                    #[trigger] rule_at(ms, pos as int, n, src, arrow, dst) && statement_ends(
                        ms,
                        pos + rule_tokens(n, src, arrow, dst).len(),
                    ) implies !roles_consistent(rule_scope(src, dst)) && exists|j: int|
                    is_first_conflict(rule_scope(src, dst), j) && error@ == conflict_message(
                        (#[trigger] rule_scope(src, dst)[j]).name(),
                    ) by {
                    let sc = statement_scope(stmt);
                    lemma_same_terms_roles(sc, rule_scope(src, dst));
                    let j = choose|j: int| is_first_conflict(sc, j) && c.name@ == (#[trigger] sc[j]).name();
                    assert(is_first_conflict(rule_scope(src, dst), j));
                    assert(rule_scope(src, dst)[j].name() == sc[j].name());
                }
            }
            Err(ParseError::User { error })
        },
    }
}

pub open spec fn at_end_spec(toks: Seq<Token>, p: int) -> bool {
    p == toks.len() || (0 <= p < toks.len() && toks[p] is Newline)
}

/// The statement is the rule of that name, arrow and sides, and its scope has
/// the names and roles of the rule's terms.
pub open spec fn stmt_is_rule(s: Statement, n: Seq<char>, src: Expression, arrow: TokModel, dst: Expression) -> bool {
    match s {
        Statement::RewriteDef(n2, rw) => n2@ == n && rewrite_is(rw, arrow, src, dst) && same_terms(
            statement_scope(s),
            rule_scope(src, dst),
        ),
        _ => false,
    }
}

/// What a statement parser owes on a rule of plain terms ending at `end`: the
/// rule where its names are used consistently, else the error that names the
/// first conflicting identifier.
pub open spec fn rule_outcome(
    r: Result<(Statement, usize), ParseError>,
    end: int,
    n: Seq<char>,
    src: Expression,
    arrow: TokModel,
    dst: Expression,
) -> bool {
    &&& roles_consistent(rule_scope(src, dst)) ==> (r matches Ok((s, p)) && stmt_is_rule(s, n, src, arrow, dst)
        && p == end)
    &&& !roles_consistent(rule_scope(src, dst)) ==> (r matches Err(ParseError::User { error }) && exists|j: int|
        is_first_conflict(rule_scope(src, dst), j) && error@ == conflict_message(
            (#[trigger] rule_scope(src, dst)[j]).name(),
        ))
}

/// Parses a single statement.
pub struct StmtParser {}

impl StmtParser {
    pub fn new() -> Self {
        StmtParser {  }
    }

    /// A statement on its own; line breaks count as spaces. A statement
    /// comes back only if no name of its scope is both a hole and an id. On
    /// the text of a rule of plain terms it returns that rule where its names
    /// are used consistently, and otherwise the error that names the first
    /// conflicting identifier.
    pub fn parse(&self, text: &str) -> (r: Result<Statement, ParseError>)
        ensures
            r matches Ok(s) ==> roles_consistent(statement_scope(s)),
            r matches Err(ParseError::User { error }) ==> exists|n: Seq<char>| error@ == conflict_message(n),
            forall|n: Seq<char>, src: Expression, arrow: TokModel, dst: Expression|
                #[trigger] is_rule_text(text@, n, src, arrow, dst) ==> rule_result(r, n, src, arrow, dst),
    {
        proof {
            assert forall|n: Seq<char>, src: Expression, arrow: TokModel, dst: Expression|
                #[trigger] is_rule_text(text@, n, src, arrow, dst) implies lex_from(text@, 0, false) == Some(
                rule_tokens(n, src, arrow, dst),
            ) by {
                assert(text@.subrange(0, text@.len() as int) =~= text@);
                lemma_lex_rule(text@, 0, n, src, arrow, dst, false);
                assert(rule_tokens(n, src, arrow, dst) + seq![] =~= rule_tokens(n, src, arrow, dst));
            }
        }
        let toks = match lex(text, false) {
            Ok(t) => t,
            Err(e) => {
                return Err(e);
            },
        };
        let ghost ms = tok_models(toks@);
        proof {
            assert forall|n: Seq<char>, src: Expression, arrow: TokModel, dst: Expression|
                #[trigger] is_rule_text(text@, n, src, arrow, dst) implies rule_at(ms, 0, n, src, arrow, dst)
                && statement_ends(ms, rule_tokens(n, src, arrow, dst).len() as int) by {
                assert(ms.subrange(0, ms.len() as int) =~= ms);
            }
        }
        let (stmt, p) = match parse_statement(&toks, 0) {
            Ok(x) => x,
            Err(e) => {
                return Err(e);
            },
        };
        if p < toks.len() {
            return Err(ParseError::ExtraToken { location: p });
        }
        Ok(stmt)
    }
}

/// What a statement parser owes on the text of a rule of plain terms.
pub open spec fn rule_result(
    r: Result<Statement, ParseError>,
    n: Seq<char>,
    src: Expression,
    arrow: TokModel,
    dst: Expression,
) -> bool {
    &&& roles_consistent(rule_scope(src, dst)) ==> (r matches Ok(s) && stmt_is_rule(s, n, src, arrow, dst))
    &&& !roles_consistent(rule_scope(src, dst)) ==> (r matches Err(ParseError::User { error }) && exists|j: int|
        is_first_conflict(rule_scope(src, dst), j) && error@ == conflict_message(
            (#[trigger] rule_scope(src, dst)[j]).name(),
        ))
}

/// Parses a sequence of statements, one per line; blank lines are skipped.
pub struct DefsParser {}

impl DefsParser {
    pub fn new() -> Self {
        DefsParser {  }
    }

    /// The statements of a text in order; it fails on the first statement
    /// that does not parse or whose names are not used consistently. On the
    /// text of rules of plain terms, one per line, it returns those rules in
    /// order where each uses its names consistently, and otherwise the error
    /// that names the first conflicting identifier of the first such rule.
    pub fn parse(&self, text: &str) -> (r: Result<Definitions, ParseError>)
        ensures
            r matches Ok(Definitions::Defs(v)) ==> forall|k: int|
                0 <= k < v.len() ==> roles_consistent(statement_scope(#[trigger] v@[k])),
            r matches Err(ParseError::User { error }) ==> exists|n: Seq<char>| error@ == conflict_message(n),
            forall|rs: Seq<RuleSpec>| #[trigger] is_rules_text(text@, rs) ==> defs_result(r, rs),
    {
        proof {
            assert forall|rs: Seq<RuleSpec>| #[trigger] is_rules_text(text@, rs) implies lex_from(text@, 0, true)
                == Some(rules_tokens(rs)) by {
                assert(text@.subrange(0, text@.len() as int) =~= text@);
                lemma_lex_rules(text@, 0, rs);
                assert(rules_tokens(rs) + seq![] =~= rules_tokens(rs));
            }
        }
        let toks = match lex(text, true) {
            Ok(t) => t,
            Err(e) => {
                return Err(e);
            },
        };
        let ghost ms = tok_models(toks@);
        let mut stmts: Vec<Statement> = Vec::new();
        let mut p: usize = 0;
        proof {
            assert forall|rs: Seq<RuleSpec>| #[trigger] is_rules_text(text@, rs) implies rules_end(rs, 0) == 0 by {
                assert(rs.subrange(0, 0) =~= seq![]);
            }
        }
        while p < toks.len()
            invariant
                p <= toks.len(),
                ms == tok_models(toks@),
                forall|k: int|
                    0 <= k < stmts.len() ==> roles_consistent(statement_scope(#[trigger] stmts@[k])),
                forall|rs: Seq<RuleSpec>| #[trigger]
                    is_rules_text(text@, rs) ==> ms == rules_tokens(rs) && rules_parsed(stmts@, rs) && (p == rules_end(rs, stmts.len() as int) || (0 < stmts.len() < rs.len() && p
                        == rules_end(rs, stmts.len() as int) + 1)),
            decreases toks.len() - p,
        {
            let ghost k = stmts.len() as int;
            let ghost old_stmts = stmts@;
            proof {
                assert(ms[p as int] == tok_model(toks@[p as int]));
                assert forall|rs: Seq<RuleSpec>| #[trigger] is_rules_text(text@, rs) implies k < rs.len() && (
                (toks@[p as int] is Newline) == (k > 0 && p == rules_end(rs, k))) && (!(toks@[p as int] is Newline)
                    ==> p == (if k == 0 { 0 } else { rules_end(rs, k) + 1 })) by {
                    if k == rs.len() {
                        lemma_rule_in_rules(rs, 0);
                        if rs.len() > 0 {
                            lemma_rule_in_rules(rs, rs.len() - 1);
                        } else {
                            assert(rs.subrange(0, 0) =~= seq![]);
                        }
                        assert(false);
                    }
                    lemma_rule_in_rules(rs, k);
                    let start = if k == 0 { 0 } else { rules_end(rs, k) + 1 };
                    lemma_rule_parts(ms, start, rs[k].0, rs[k].1, rs[k].2, rs[k].3);
                }
            }
            if matches!(toks[p], Token::Newline) {
                p = p + 1;
            } else {
                let (stmt, q) = match parse_statement(&toks, p) {
                    Ok(x) => x,
                    Err(e) => {
                        proof {
                            assert forall|rs: Seq<RuleSpec>| #[trigger] is_rules_text(text@, rs) implies defs_result(
                                Err(e),
                                rs,
                            ) by {
                                lemma_rule_in_rules(rs, k);
                                let start = if k == 0 { 0 } else { rules_end(rs, k) + 1 };
                                assert(p == start);
                                assert(rule_at(ms, p as int, rs[k].0, rs[k].1, rs[k].2, rs[k].3));
                                assert(statement_ends(ms, p + rule_tokens(rs[k].0, rs[k].1, rs[k].2, rs[k].3).len()));
                                assert(rules_parsed(stmts@, rs));
                                assert forall|j: int| 0 <= j < k implies roles_consistent(rule_scope(#[trigger] rs[j].1, rs[j].3)) by {
                                    assert(stmt_is_rule(stmts@[j], rs[j].0, rs[j].1, rs[j].2, rs[j].3));
                                }
                                assert(first_bad_rule(rs, k));
                                assert forall|k2: int| #[trigger] first_bad_rule(rs, k2) implies k2 == k by {
                                    if k2 < k {
                                        assert(roles_consistent(rule_scope(rs[k2].1, rs[k2].3)));
                                    }
                                }
                            }
                        }
                        return Err(e);
                    },
                };
                stmts.push(stmt);
                proof {
                    assert forall|rs: Seq<RuleSpec>| #[trigger] is_rules_text(text@, rs) implies q == rules_end(rs, k + 1)
                        && roles_consistent(rule_scope(rs[k].1, rs[k].3)) && stmt_is_rule(
                        stmt,
                        rs[k].0,
                        rs[k].1,
                        rs[k].2,
                        rs[k].3,
                    ) by {
                        lemma_rule_in_rules(rs, k);
                        let start = if k == 0 { 0 } else { rules_end(rs, k) + 1 };
                        assert(p == start);
                        assert(rule_at(ms, p as int, rs[k].0, rs[k].1, rs[k].2, rs[k].3));
                        assert(statement_ends(ms, p + rule_tokens(rs[k].0, rs[k].1, rs[k].2, rs[k].3).len()));
                    }
                    assert forall|rs: Seq<RuleSpec>| #[trigger] is_rules_text(text@, rs) implies rules_parsed(stmts@, rs) by {
                        assert(rules_parsed(old_stmts, rs));
                        assert(k < rs.len());
                        assert(roles_consistent(rule_scope(rs[k].1, rs[k].3)));
                        assert(stmt_is_rule(stmt, rs[k].0, rs[k].1, rs[k].2, rs[k].3));
                        assert(stmts@.len() == k + 1);
                        assert forall|j: int| #![trigger rs[j]] 0 <= j < stmts.len() implies roles_consistent(rule_scope(rs[j].1, rs[j].3))
                            && stmt_is_rule(stmts@[j], rs[j].0, rs[j].1, rs[j].2, rs[j].3) by {
                            if j < k {
                                assert(stmts@[j] == old_stmts[j]);
                                assert(stmt_is_rule(old_stmts[j], rs[j].0, rs[j].1, rs[j].2, rs[j].3));
                                assert(roles_consistent(rule_scope(rs[j].1, rs[j].3)));
                            } else {
                                assert(stmts@[j] == stmt);
                                assert(j == k);
                                assert(roles_consistent(rule_scope(rs[j].1, rs[j].3)));
                            }
                        }
                        assert(rules_parsed(stmts@, rs));
                    }
                }
                p = q;
            }
        }
        proof {
            assert forall|rs: Seq<RuleSpec>| #[trigger] is_rules_text(text@, rs) implies stmts.len() == rs.len() by {
                let k = stmts.len() as int;
                if k < rs.len() {
                    lemma_rule_in_rules(rs, k);
                    lemma_rule_in_rules(rs, rs.len() - 1);
                    lemma_rules_end_mono(rs, k + 1, rs.len() as int);
                    lemma_rule_parts(ms, if k == 0 { 0 } else { rules_end(rs, k) + 1 }, rs[k].0, rs[k].1, rs[k].2, rs[k].3);
                }
            }
            assert forall|rs: Seq<RuleSpec>| #[trigger] is_rules_text(text@, rs) implies (forall|k: int|
                0 <= k < rs.len() ==> stmt_is_rule(#[trigger] stmts@[k], rs[k].0, rs[k].1, rs[k].2, rs[k].3)
                    && roles_consistent(rule_scope(rs[k].1, rs[k].3))) && (forall|k: int| !#[trigger] first_bad_rule(rs, k)) by {
                assert(rules_parsed(stmts@, rs));
                assert forall|k: int| !#[trigger] first_bad_rule(rs, k) by {
                    if 0 <= k < rs.len() {
                        assert(stmt_is_rule(stmts@[k], rs[k].0, rs[k].1, rs[k].2, rs[k].3));
                    }
                }
            }
        }
        Ok(Definitions::Defs(stmts))
    }
}

/// The statements are the first rules, in order, each used consistently.
pub open spec fn rules_parsed(v: Seq<Statement>, rs: Seq<RuleSpec>) -> bool {
    &&& v.len() <= rs.len()
    &&& forall|q: int|
        0 <= q < v.len() ==> roles_consistent(rule_scope(rs[q].1, rs[q].3)) && stmt_is_rule(
            #[trigger] v[q],
            rs[q].0,
            rs[q].1,
            rs[q].2,
            rs[q].3,
        )
}

/// Rule `k` is the first whose names are not used consistently.
pub open spec fn first_bad_rule(rs: Seq<RuleSpec>, k: int) -> bool {
    &&& 0 <= k < rs.len()
    &&& !roles_consistent(rule_scope(rs[k].1, rs[k].3))
    &&& forall|j: int| 0 <= j < k ==> roles_consistent(rule_scope(#[trigger] rs[j].1, rs[j].3))
}

/// What a parser of lines owes on the text of rules of plain terms.
pub open spec fn defs_result(r: Result<Definitions, ParseError>, rs: Seq<RuleSpec>) -> bool {
    &&& (forall|k: int| 0 <= k < rs.len() ==> roles_consistent(rule_scope(#[trigger] rs[k].1, rs[k].3))) ==> (
    r matches Ok(Definitions::Defs(v)) && v.len() == rs.len() && forall|k: int|
        0 <= k < rs.len() ==> stmt_is_rule(#[trigger] v@[k], rs[k].0, rs[k].1, rs[k].2, rs[k].3))
    &&& forall|k: int| #[trigger]
        first_bad_rule(rs, k) ==> (r matches Err(ParseError::User { error }) && exists|j: int|
            is_first_conflict(rule_scope(rs[k].1, rs[k].3), j) && error@ == conflict_message(
                (#[trigger] rule_scope(rs[k].1, rs[k].3)[j]).name(),
            ))
}

/// Parses a single term.
pub struct ExpParser {}

impl ExpParser {
    pub fn new() -> Self {
        ExpParser {  }
    }

    /// A term on its own; line breaks count as spaces. The term returned,
    /// written canonically, has exactly the tokens of the text. Reading back
    /// the canonical text of a plain term, or any text with its tokens, gives
    /// that term without its annotations.
    pub fn parse(&self, text: &str) -> (r: Result<Expression, ParseError>)
        ensures
            r matches Ok(e) ==> lex_from(text@, 0, false) == Some(exp_tokens(e)),
            lex_from(text@, 0, false) is None ==> r is Err,
            forall|e: Expression| #[trigger] plain(e) && text@ == sexp(e) ==> (r matches Ok(e2) && e2@ == strip(e@)),
            forall|e: Expression|
                #[trigger] plain(e) && lex_from(text@, 0, false) == Some(exp_tokens(e)) ==> (r matches Ok(e2)
                    && e2@ == strip(e@)),
    {
        proof {
            assert forall|e: Expression| #[trigger] plain(e) && text@ == sexp(e) implies lex_from(text@, 0, false)
                == Some(exp_tokens(e)) by {
                assert(text@.subrange(0, sexp(e).len() as int) =~= sexp(e));
                lemma_lex_exp(text@, 0, e, false);
                assert(exp_tokens(e) + seq![] =~= exp_tokens(e));
            }
        }
        let toks = match lex(text, false) {
            Ok(t) => t,
            Err(e) => {
                return Err(e);
            },
        };
        proof {
            assert forall|e: Expression| #[trigger] plain(e) && lex_from(text@, 0, false) == Some(exp_tokens(e))
                implies starts_with_term(tok_models(toks@), 0, e) by {
                assert(tok_models(toks@).subrange(0, exp_tokens(e).len() as int) =~= tok_models(toks@));
            }
        }
        let (e, p) = match parse_exp(&toks, 0) {
            Ok(x) => x,
            Err(e) => {
                return Err(e);
            },
        };
        if p < toks.len() {
            return Err(ParseError::ExtraToken { location: p });
        }
        assert(tok_models(toks@).subrange(0, p as int) =~= tok_models(toks@));
        Ok(e)
    }
}

} // verus!
