use vstd::prelude::*;
use crate::ast::{AnnoModel, ExprModel, TermModel, Expression, Rewrite, Terminal, sexp, sexp_arms, sexp_list, term_model, term_text, terms, terms_of_arms, terms_of_list};
use crate::parse_tools::{conflict_at, is_first_conflict, roles_consistent};
use crate::grammar::{
    TokModel, arms_tokens, exp_tokens, is_delimiter, lex_from, list_tokens, terminal_token,
    then_tokens, word_end, word_token,
};

verus! {

/// A name that reads back as one token: not empty, and without spaces,
/// parentheses or colons.
pub open spec fn valid_name(n: Seq<char>) -> bool {
    &&& n.len() > 0
    &&& forall|k: int| 0 <= k < n.len() ==> !is_delimiter(#[trigger] n[k])
}

/// A terminal whose canonical text reads back as its name and role: an
/// identifier does not start with `?` and is not an arrow, and at the head of
/// an application it is not `match`. Annotations are not written, so any is
/// allowed.
pub open spec fn plain_terminal(t: Terminal, head: bool) -> bool {
    match t {
        Terminal::Id(n, _) => valid_name(n@) && n@[0] != '?' && word_token(n@) == TokModel::Name(n@) && (head
            ==> n@ != "match"@),
        Terminal::Hole(n, _) => valid_name(n@),
    }
}

/// A terminal's model with its annotation removed.
pub open spec fn strip_term(t: TermModel) -> TermModel {
    match t {
        TermModel::Id(n, _) => TermModel::Id(n, None),
        TermModel::Hole(n, _) => TermModel::Hole(n, None),
    }
}

/// A term's model with every annotation removed.
pub open spec fn strip(m: ExprModel) -> ExprModel
    decreases m,
{
    match m {
        ExprModel::Leaf(t) => ExprModel::Leaf(strip_term(t)),
        ExprModel::Op(t, cs) => ExprModel::Op(
            strip_term(t),
            Seq::new(cs.len(), |i: int| if 0 <= i < cs.len() { strip(cs[i]) } else { ExprModel::Leaf(strip_term(t)) }),
        ),
        ExprModel::Match(s, arms) => ExprModel::Match(
            Box::new(strip(*s)),
            Seq::new(arms.len(), |i: int| if 0 <= i < arms.len() { (strip(arms[i].0), strip(arms[i].1)) } else { (strip(*s), strip(*s)) }),
        ),
    }
}

/// A term whose terminals are all plain.
pub open spec fn plain(e: Expression) -> bool
    decreases e,
{
    match e {
        Expression::Leaf(t) => plain_terminal(t, false),
        Expression::Op(t, cs) => plain_terminal(t, true) && plain_list(cs@),
        Expression::Match(s, arms) => plain(*s) && plain_arms(arms@),
    }
}

pub open spec fn plain_list(cs: Seq<Expression>) -> bool
    decreases cs,
{
    cs.len() > 0 ==> plain_list(cs.subrange(0, cs.len() - 1)) && plain(cs[cs.len() - 1])
}

pub open spec fn plain_arms(arms: Seq<(Expression, Expression)>) -> bool
    decreases arms,
{
    arms.len() > 0 ==> plain_arms(arms.subrange(0, arms.len() - 1)) && plain(arms[arms.len() - 1].0)
        && plain(arms[arms.len() - 1].1)
}

/// A name may end at `j`: the text ends there or a delimiter follows.
pub open spec fn ends_ok(text: Seq<char>, j: int) -> bool {
    j == text.len() || (0 <= j < text.len() && is_delimiter(text[j]))
}

/// `text` holds `a` from `i` on.
pub open spec fn holds_at(text: Seq<char>, i: int, a: Seq<char>) -> bool {
    &&& 0 <= i
    &&& i + a.len() <= text.len()
    &&& text.subrange(i, i + a.len()) == a
}

proof fn lemma_holds_split(text: Seq<char>, i: int, a: Seq<char>, b: Seq<char>)
    requires
        holds_at(text, i, a + b),
    ensures
        holds_at(text, i, a),
        holds_at(text, i + a.len(), b),
{
    let whole = text.subrange(i, i + (a + b).len());
    assert(whole == a + b);
    assert(text.subrange(i, i + a.len()) =~= whole.subrange(0, a.len() as int));
    assert(whole.subrange(0, a.len() as int) =~= a);
    assert(text.subrange(i + a.len(), i + a.len() + b.len()) =~= whole.subrange(
        a.len() as int,
        (a + b).len() as int,
    ));
    assert(whole.subrange(a.len() as int, (a + b).len() as int) =~= b);
}

proof fn lemma_then_assoc(a: Seq<TokModel>, b: Seq<TokModel>, rest: Option<Seq<TokModel>>)
    ensures
        then_tokens(a, then_tokens(b, rest)) == then_tokens(a + b, rest),
{
    match rest {
        Some(x) => {
            assert(a + (b + x) =~= (a + b) + x);
        },
        None => {},
    }
}

proof fn lemma_word_end(text: Seq<char>, j: int, n: Seq<char>)
    requires
        holds_at(text, j, n),
        forall|k: int| 0 <= k < n.len() ==> !is_delimiter(#[trigger] n[k]),
        ends_ok(text, j + n.len()),
    ensures
        word_end(text, j) == j + n.len(),
    decreases n.len(),
{
    if n.len() > 0 {
        assert(text[j] == text.subrange(j, j + n.len())[0]);
        let m = n.subrange(1, n.len() as int);
        assert(text.subrange(j + 1, j + 1 + m.len()) =~= m) by {
            assert forall|k: int| 0 <= k < m.len() implies text.subrange(j + 1, j + 1 + m.len())[k]
                == m[k] by {
                assert(text.subrange(j, j + n.len())[k + 1] == n[k + 1]);
            }
        }
        assert forall|k: int| 0 <= k < m.len() implies !is_delimiter(#[trigger] m[k]) by {
            assert(m[k] == n[k + 1]);
        }
        lemma_word_end(text, j + 1, m);
    }
}

proof fn lemma_lex_terminal(text: Seq<char>, i: int, t: Terminal, head: bool, lines: bool)
    requires
        plain_terminal(t, head),
        holds_at(text, i, term_text(t)),
        ends_ok(text, i + term_text(t).len()),
    ensures
        lex_from(text, i, lines) == then_tokens(
            seq![terminal_token(t)],
            lex_from(text, i + term_text(t).len(), lines),
        ),
{
    let end = i + term_text(t).len();
    match t {
        Terminal::Id(n, _) => {
            assert(text[i] == text.subrange(i, end)[0]);
            assert(!is_delimiter(n@[0]));
            lemma_word_end(text, i, n@);
            assert(text.subrange(i, end) == n@);
        },
        Terminal::Hole(n, _) => {
            let full = seq!['?'] + n@;
            assert(text[i] == text.subrange(i, end)[0]);
            lemma_holds_split(text, i, seq!['?'], n@);
            lemma_word_end(text, i + 1, n@);
        },
    }
}

/// Lexing the canonical text of a plain term gives its canonical tokens,
/// wherever the text stands in a longer one, when a delimiter or the end
/// follows it.
#[verifier::rlimit(60)]
pub proof fn lemma_lex_exp(text: Seq<char>, i: int, e: Expression, lines: bool)
    requires
        plain(e),
        holds_at(text, i, sexp(e)),
        ends_ok(text, i + sexp(e).len()),
    ensures
        lex_from(text, i, lines) == then_tokens(exp_tokens(e), lex_from(text, i + sexp(e).len(), lines)),
    decreases e, 1nat,
{
    match e {
        Expression::Leaf(t) => {
            lemma_lex_terminal(text, i, t, false, lines);
        },
        Expression::Op(t, cs) => {
            let tt = term_text(t);
            let sl = sexp_list(cs@);
            assert(sexp(e) == seq!['('] + tt + sl + seq![')']);
            lemma_holds_split(text, i, seq!['('] + tt + sl, seq![')']);
            lemma_holds_split(text, i, seq!['('] + tt, sl);
            lemma_holds_split(text, i, seq!['('], tt);
            let j = i + 1 + tt.len();
            let k = j + sl.len();
            assert(text[i] == text.subrange(i, i + 1)[0]);
            assert(text[k] == text.subrange(k, k + 1)[0]);
            lemma_sexp_list_starts(cs@);
            if sl.len() > 0 {
                assert(text[j] == text.subrange(j, j + sl.len())[0]);
            }
            lemma_lex_terminal(text, i + 1, t, true, lines);
            lemma_lex_list(text, j, cs@, lines);
            assert(lex_from(text, i, lines) == prepend_one(TokModel::LParen, lex_from(text, i + 1, lines)));
            assert(lex_from(text, k, lines) == prepend_one(TokModel::RParen, lex_from(text, k + 1, lines)));
            lemma_then_assoc(seq![terminal_token(t)], list_tokens(cs@), lex_from(text, k, lines));
            lemma_then_assoc(
                seq![terminal_token(t)] + list_tokens(cs@),
                seq![TokModel::RParen],
                lex_from(text, k + 1, lines),
            );
            lemma_then_assoc(
                seq![TokModel::LParen],
                seq![terminal_token(t)] + list_tokens(cs@) + seq![TokModel::RParen],
                lex_from(text, k + 1, lines),
            );
            assert(seq![TokModel::LParen] + (seq![terminal_token(t)] + list_tokens(cs@) + seq![
                TokModel::RParen,
            ]) =~= exp_tokens(e));
        },
        Expression::Match(s, arms) => {
            let ss = sexp(*s);
            let sa = sexp_arms(arms@);
            let lead = seq!['(', 'm', 'a', 't', 'c', 'h', ' '];
            assert(sexp(e) == lead + ss + sa + seq![')']);
            lemma_holds_split(text, i, lead + ss + sa, seq![')']);
            lemma_holds_split(text, i, lead + ss, sa);
            lemma_holds_split(text, i, lead, ss);
            let j = i + 7;
            let k = j + ss.len();
            let m = k + sa.len();
            assert(text[i] == text.subrange(i, i + 7)[0]);
            assert(text[i + 6] == text.subrange(i, i + 7)[6]);
            let word = seq!['m', 'a', 't', 'c', 'h'];
            assert(text.subrange(i + 1, i + 6) =~= word) by {
                assert forall|q: int| 0 <= q < 5 implies text.subrange(i + 1, i + 6)[q] == word[q] by {
                    assert(text.subrange(i, i + 7)[q + 1] == lead[q + 1]);
                }
            }
            assert forall|q: int| 0 <= q < word.len() implies !is_delimiter(#[trigger] word[q]) by {}
            lemma_word_end(text, i + 1, word);
            reveal_strlit("match");
            reveal_strlit("=>");
            reveal_strlit("->");
            reveal_strlit("<=>");
            reveal_strlit("|>");
            assert("match"@ =~= word);
            assert(word_token(word) == TokModel::Name("match"@));
            assert(text[m] == text.subrange(m, m + 1)[0]);
            lemma_sexp_arms_starts(arms@);
            if sa.len() > 0 {
                assert(text[k] == text.subrange(k, k + sa.len())[0]);
            }
            lemma_lex_exp(text, j, *s, lines);
            lemma_lex_arms(text, k, arms@, lines);
            assert(lex_from(text, i, lines) == prepend_one(TokModel::LParen, lex_from(text, i + 1, lines)));
            assert(text.subrange(i + 1, i + 6) == word);
            assert(lex_from(text, i + 1, lines) == prepend_one(TokModel::Name("match"@), lex_from(text, i + 6, lines)));
            assert(lex_from(text, i + 6, lines) == lex_from(text, j, lines));
            assert(lex_from(text, m, lines) == prepend_one(TokModel::RParen, lex_from(text, m + 1, lines)));
            lemma_then_assoc(seq![TokModel::LParen], seq![TokModel::Name("match"@)], lex_from(text, j, lines));
            let head = seq![TokModel::LParen, TokModel::Name("match"@)];
            lemma_then_assoc(exp_tokens(*s), arms_tokens(arms@), lex_from(text, m, lines));
            lemma_then_assoc(exp_tokens(*s) + arms_tokens(arms@), seq![TokModel::RParen], lex_from(text, m + 1, lines));
            lemma_then_assoc(head, exp_tokens(*s) + arms_tokens(arms@) + seq![TokModel::RParen], lex_from(text, m + 1, lines));
            assert(head + (exp_tokens(*s) + arms_tokens(arms@) + seq![TokModel::RParen]) =~= exp_tokens(e));
        },
    }
}

pub open spec fn prepend_one(t: TokModel, rest: Option<Seq<TokModel>>) -> Option<Seq<TokModel>> {
    then_tokens(seq![t], rest)
}

proof fn lemma_sexp_list_starts(cs: Seq<Expression>)
    ensures
        sexp_list(cs).len() > 0 ==> sexp_list(cs)[0] == ' ',
    decreases cs.len(),
{
    if cs.len() > 0 {
        lemma_sexp_list_starts(cs.subrange(0, cs.len() - 1));
    }
}

proof fn lemma_sexp_arms_starts(arms: Seq<(Expression, Expression)>)
    ensures
        sexp_arms(arms).len() > 0 ==> sexp_arms(arms)[0] == ' ',
    decreases arms.len(),
{
    if arms.len() > 0 {
        lemma_sexp_arms_starts(arms.subrange(0, arms.len() - 1));
    }
}

proof fn lemma_lex_list(text: Seq<char>, i: int, cs: Seq<Expression>, lines: bool)
    requires
        plain_list(cs),
        holds_at(text, i, sexp_list(cs)),
        ends_ok(text, i + sexp_list(cs).len()),
    ensures
        lex_from(text, i, lines) == then_tokens(list_tokens(cs), lex_from(text, i + sexp_list(cs).len(), lines)),
    decreases cs, 0nat,
{
    if cs.len() == 0 {
        match lex_from(text, i, lines) {
            Some(x) => {
                assert(seq![] + x =~= x);
            },
            None => {},
        }
    } else {
        let pre = cs.subrange(0, cs.len() - 1);
        let last = cs[cs.len() - 1];
        let sp = sexp_list(pre);
        let sx = sexp(last);
        lemma_holds_split(text, i, sp + seq![' '], sx);
        lemma_holds_split(text, i, sp, seq![' ']);
        let j = i + sp.len();
        assert(text[j] == text.subrange(j, j + 1)[0]);
        lemma_lex_list(text, i, pre, lines);
        lemma_lex_exp(text, j + 1, last, lines);
        lemma_then_assoc(list_tokens(pre), exp_tokens(last), lex_from(text, j + 1 + sx.len(), lines));
    }
}

#[verifier::rlimit(60)]
proof fn lemma_lex_arms(text: Seq<char>, i: int, arms: Seq<(Expression, Expression)>, lines: bool)
    requires
        plain_arms(arms),
        holds_at(text, i, sexp_arms(arms)),
        ends_ok(text, i + sexp_arms(arms).len()),
    ensures
        lex_from(text, i, lines) == then_tokens(arms_tokens(arms), lex_from(text, i + sexp_arms(arms).len(), lines)),
    decreases arms, 0nat,
{
    if arms.len() == 0 {
        match lex_from(text, i, lines) {
            Some(x) => {
                assert(seq![] + x =~= x);
            },
            None => {},
        }
    } else {
        let pre = arms.subrange(0, arms.len() - 1);
        let (p, b) = arms[arms.len() - 1];
        let sp = sexp_arms(pre);
        let open = seq![' ', '(', '=', '>', ' '];
        let spp = sexp(p);
        let sbb = sexp(b);
        assert(sexp_arms(arms) == sp + open + spp + seq![' '] + sbb + seq![')']);
        lemma_holds_split(text, i, sp + open + spp + seq![' '] + sbb, seq![')']);
        lemma_holds_split(text, i, sp + open + spp + seq![' '], sbb);
        lemma_holds_split(text, i, sp + open + spp, seq![' ']);
        lemma_holds_split(text, i, sp + open, spp);
        lemma_holds_split(text, i, sp, open);
        let j = i + sp.len();
        let k = j + 5;
        let l = k + spp.len();
        let m = l + 1 + sbb.len();
        assert(text[j] == text.subrange(j, j + 5)[0]);
        assert(text[j + 1] == text.subrange(j, j + 5)[1]);
        assert(text[j + 4] == text.subrange(j, j + 5)[4]);
        assert(text[l] == text.subrange(l, l + 1)[0]);
        assert(text[m] == text.subrange(m, m + 1)[0]);
        let arrow = seq!['=', '>'];
        assert(text.subrange(j + 2, j + 4) =~= arrow) by {
            assert(text.subrange(j, j + 5)[2] == '=');
            assert(text.subrange(j, j + 5)[3] == '>');
        }
        assert forall|q: int| 0 <= q < arrow.len() implies !is_delimiter(#[trigger] arrow[q]) by {}
        lemma_word_end(text, j + 2, arrow);
        reveal_strlit("=>");
        assert("=>"@ =~= arrow);
        lemma_lex_arms(text, i, pre, lines);
        lemma_lex_exp(text, k, p, lines);
        lemma_lex_exp(text, l + 1, b, lines);
        assert(lex_from(text, j, lines) == lex_from(text, j + 1, lines));
        assert(lex_from(text, j + 1, lines) == prepend_one(TokModel::LParen, lex_from(text, j + 2, lines)));
        assert(text.subrange(j + 2, j + 4) == arrow);
        assert(word_token(arrow) == TokModel::FatArrow);
        assert(lex_from(text, j + 2, lines) == prepend_one(TokModel::FatArrow, lex_from(text, j + 4, lines)));
        assert(lex_from(text, j + 4, lines) == lex_from(text, k, lines));
        assert(lex_from(text, l, lines) == lex_from(text, l + 1, lines));
        assert(lex_from(text, m, lines) == prepend_one(TokModel::RParen, lex_from(text, m + 1, lines)));
        lemma_then_assoc(seq![TokModel::LParen], seq![TokModel::FatArrow], lex_from(text, k, lines));
        let rest = lex_from(text, m + 1, lines);
        lemma_then_assoc(exp_tokens(b), seq![TokModel::RParen], rest);
        lemma_then_assoc(exp_tokens(p), exp_tokens(b) + seq![TokModel::RParen], rest);
        lemma_then_assoc(seq![TokModel::LParen, TokModel::FatArrow], exp_tokens(p) + (exp_tokens(b) + seq![TokModel::RParen]), rest);
        lemma_then_assoc(arms_tokens(pre), seq![TokModel::LParen, TokModel::FatArrow] + (exp_tokens(p) + (exp_tokens(b) + seq![TokModel::RParen])), rest);
        assert(arms_tokens(pre) + (seq![TokModel::LParen, TokModel::FatArrow] + (exp_tokens(p) + (exp_tokens(b) + seq![TokModel::RParen]))) =~= arms_tokens(arms));
    }
}

/// The tokens from `pos` on begin with the canonical tokens of the plain term `e`.
pub open spec fn starts_with_term(ms: Seq<TokModel>, pos: int, e: Expression) -> bool {
    &&& plain(e)
    &&& 0 <= pos
    &&& pos + exp_tokens(e).len() <= ms.len()
    &&& ms.subrange(pos, pos + exp_tokens(e).len()) == exp_tokens(e)
}

pub proof fn lemma_exp_tokens_shape(e: Expression)
    ensures
        exp_tokens(e).len() >= 1,
        exp_tokens(e)[0] != TokModel::RParen,
        e is Leaf ==> exp_tokens(e) == seq![terminal_token(e->Leaf_0)],
        !(e is Leaf) ==> exp_tokens(e)[0] == TokModel::LParen && exp_tokens(e).len() >= 3,
        e is Op ==> exp_tokens(e)[1] == terminal_token(e->Op_0),
        e is Match ==> exp_tokens(e)[1] == TokModel::Name("match"@),
    decreases e,
{
    match e {
        Expression::Leaf(t) => {},
        Expression::Op(t, cs) => {
            assert(exp_tokens(e) == seq![TokModel::LParen, terminal_token(t)] + list_tokens(cs@) + seq![
                TokModel::RParen,
            ]);
        },
        Expression::Match(s, arms) => {
            lemma_exp_tokens_shape(*s);
        },
    }
}

/// `a` begins with `b`.
pub open spec fn begins_with(a: Seq<TokModel>, b: Seq<TokModel>) -> bool {
    b.len() <= a.len() && a.subrange(0, b.len() as int) == b
}

pub proof fn lemma_list_prefix(cs: Seq<Expression>, k: int)
    requires
        0 <= k <= cs.len(),
    ensures
        begins_with(list_tokens(cs), list_tokens(cs.subrange(0, k))),
    decreases cs.len(),
{
    if k == cs.len() {
        assert(cs.subrange(0, k) =~= cs);
        assert(list_tokens(cs).subrange(0, list_tokens(cs).len() as int) =~= list_tokens(cs));
    } else {
        let pre = cs.subrange(0, cs.len() - 1);
        lemma_list_prefix(pre, k);
        assert(pre.subrange(0, k) =~= cs.subrange(0, k));
        let a = list_tokens(cs);
        let b = list_tokens(pre);
        let c = list_tokens(cs.subrange(0, k));
        assert(a == b + exp_tokens(cs[cs.len() - 1]));
        assert(a.subrange(0, c.len() as int) =~= b.subrange(0, c.len() as int));
    }
}

pub proof fn lemma_arms_prefix(arms: Seq<(Expression, Expression)>, k: int)
    requires
        0 <= k <= arms.len(),
    ensures
        begins_with(arms_tokens(arms), arms_tokens(arms.subrange(0, k))),
    decreases arms.len(),
{
    if k == arms.len() {
        assert(arms.subrange(0, k) =~= arms);
        assert(arms_tokens(arms).subrange(0, arms_tokens(arms).len() as int) =~= arms_tokens(arms));
    } else {
        let pre = arms.subrange(0, arms.len() - 1);
        lemma_arms_prefix(pre, k);
        assert(pre.subrange(0, k) =~= arms.subrange(0, k));
        let a = arms_tokens(arms);
        let b = arms_tokens(pre);
        let c = arms_tokens(arms.subrange(0, k));
        let last = arms[arms.len() - 1];
        assert(a == b + seq![TokModel::LParen, TokModel::FatArrow] + exp_tokens(last.0) + exp_tokens(last.1)
            + seq![TokModel::RParen]);
        assert(a.subrange(0, c.len() as int) =~= b.subrange(0, c.len() as int));
    }
}

pub proof fn lemma_plain_list_index(cs: Seq<Expression>, k: int)
    requires
        plain_list(cs),
        0 <= k < cs.len(),
    ensures
        plain(cs[k]),
    decreases cs.len(),
{
    if k < cs.len() - 1 {
        let pre = cs.subrange(0, cs.len() - 1);
        lemma_plain_list_index(pre, k);
    }
}

pub proof fn lemma_plain_arms_index(arms: Seq<(Expression, Expression)>, k: int)
    requires
        plain_arms(arms),
        0 <= k < arms.len(),
    ensures
        plain(arms[k].0),
        plain(arms[k].1),
    decreases arms.len(),
{
    if k < arms.len() - 1 {
        let pre = arms.subrange(0, arms.len() - 1);
        lemma_plain_arms_index(pre, k);
    }
}

/// A window of a window: where `ms` holds `big` from `pos` and `big` holds
/// `w` from `off`, `ms` holds `w` from `pos + off`.
pub proof fn lemma_window(ms: Seq<TokModel>, pos: int, big: Seq<TokModel>, off: int, w: Seq<TokModel>)
    requires
        0 <= pos,
        pos + big.len() <= ms.len(),
        ms.subrange(pos, pos + big.len()) == big,
        0 <= off,
        off + w.len() <= big.len(),
        big.subrange(off, off + w.len()) == w,
    ensures
        ms.subrange(pos + off, pos + off + w.len()) == w,
{
    assert forall|q: int| 0 <= q < w.len() implies ms.subrange(pos + off, pos + off + w.len())[q] == w[q] by {
        assert(ms.subrange(pos, pos + big.len())[off + q] == big[off + q]);
        assert(big.subrange(off, off + w.len())[q] == big[off + q]);
    }
    assert(ms.subrange(pos + off, pos + off + w.len()) =~= w);
}

/// Where `ms` holds `[open] + l + [close]`-like text `big` from `pos`, and `l`
/// stands in `big` from `off` and begins with `p + x`, `ms` holds `x` from
/// `pos + off + p.len()`.
pub proof fn lemma_window_next(
    ms: Seq<TokModel>,
    pos: int,
    big: Seq<TokModel>,
    off: int,
    l: Seq<TokModel>,
    p: Seq<TokModel>,
    x: Seq<TokModel>,
)
    requires
        0 <= pos,
        pos + big.len() <= ms.len(),
        ms.subrange(pos, pos + big.len()) == big,
        0 <= off,
        off + l.len() <= big.len(),
        big.subrange(off, off + l.len()) == l,
        begins_with(l, p + x),
    ensures
        ms.subrange(pos + off + p.len(), pos + off + p.len() + x.len()) == x,
{
    assert(l.subrange(p.len() as int, (p.len() + x.len()) as int) =~= x) by {
        assert forall|q: int| 0 <= q < x.len() implies l.subrange(p.len() as int, (p.len() + x.len()) as int)[q] == x[q] by {
            assert(l.subrange(0, (p + x).len() as int)[p.len() + q] == (p + x)[p.len() + q]);
        }
    }
    assert(big.subrange(off + p.len(), off + p.len() + x.len()) =~= x) by {
        assert forall|q: int| 0 <= q < x.len() implies big.subrange(off + p.len(), off + p.len() + x.len())[q] == x[q] by {
            assert(big.subrange(off, off + l.len())[p.len() + q] == l[p.len() + q]);
            assert(l.subrange(p.len() as int, (p.len() + x.len()) as int)[q] == l[p.len() + q]);
        }
    }
    lemma_window(ms, pos, big, off + p.len(), x);
}

/// The child `k` of an application whose tokens stand at `pos` starts
/// after the head and the children before it.
pub proof fn lemma_op_child(ms: Seq<TokModel>, pos: int, e: Expression, k: int)
    requires
        starts_with_term(ms, pos, e),
        e is Op,
        0 <= k < e->Op_1@.len(),
    ensures
        starts_with_term(
            ms,
            pos + 2 + list_tokens(e->Op_1@.subrange(0, k)).len(),
            e->Op_1@[k],
        ),
        list_tokens(e->Op_1@.subrange(0, k + 1)) == list_tokens(e->Op_1@.subrange(0, k)) + exp_tokens(
            e->Op_1@[k],
        ),
{
    let cs = e->Op_1@;
    let t = e->Op_0;
    let l = list_tokens(cs);
    let big = exp_tokens(e);
    assert(big == seq![TokModel::LParen, terminal_token(t)] + l + seq![TokModel::RParen]);
    assert(big.subrange(2, 2 + l.len() as int) =~= l);
    let next = cs.subrange(0, k + 1);
    assert(next.subrange(0, k) =~= cs.subrange(0, k));
    assert(next[k] == cs[k]);
    lemma_list_prefix(cs, k + 1);
    lemma_plain_list_index(cs, k);
    lemma_window_next(ms, pos, big, 2, l, list_tokens(cs.subrange(0, k)), exp_tokens(cs[k]));
}

/// After all children of an application comes its closing parenthesis.
pub proof fn lemma_op_end(ms: Seq<TokModel>, pos: int, e: Expression)
    requires
        starts_with_term(ms, pos, e),
        e is Op,
    ensures
        ms[pos + 2 + list_tokens(e->Op_1@).len()] == TokModel::RParen,
        exp_tokens(e).len() == 3 + list_tokens(e->Op_1@).len(),
        e->Op_1@.subrange(0, e->Op_1@.len() as int) == e->Op_1@,
{
    let l = list_tokens(e->Op_1@);
    let big = exp_tokens(e);
    assert(big == seq![TokModel::LParen, terminal_token(e->Op_0)] + l + seq![TokModel::RParen]);
    assert(ms.subrange(pos, pos + big.len())[2 + l.len() as int] == big[2 + l.len() as int]);
    assert(e->Op_1@.subrange(0, e->Op_1@.len() as int) =~= e->Op_1@);
}

/// The scrutinee of a match whose tokens stand at `pos` starts at `pos + 2`.
pub proof fn lemma_match_scrutinee(ms: Seq<TokModel>, pos: int, e: Expression)
    requires
        starts_with_term(ms, pos, e),
        e is Match,
    ensures
        starts_with_term(ms, pos + 2, *e->Match_0),
{
    let s = *e->Match_0;
    let big = exp_tokens(e);
    let rest = arms_tokens(e->Match_1@) + seq![TokModel::RParen];
    assert(big =~= seq![TokModel::LParen, TokModel::Name("match"@)] + exp_tokens(s) + rest);
    assert(big.subrange(2, 2 + exp_tokens(s).len() as int) =~= exp_tokens(s));
    lemma_window(ms, pos, big, 2, exp_tokens(s));
}

/// Where the arms of a match begin, relative to `pos`.
pub open spec fn arms_offset(e: Expression, k: int) -> int {
    (2 + exp_tokens(*e->Match_0).len() + arms_tokens(e->Match_1@.subrange(0, k)).len()) as int
}

/// Arm `k` of a match whose tokens stand at `pos`: `( =>`, its pattern, its
/// body and `)`.
pub proof fn lemma_match_arm(ms: Seq<TokModel>, pos: int, e: Expression, k: int)
    requires
        starts_with_term(ms, pos, e),
        e is Match,
        0 <= k < e->Match_1@.len(),
    ensures
        ms[pos + arms_offset(e, k)] == TokModel::LParen,
        ms[pos + arms_offset(e, k) + 1] == TokModel::FatArrow,
        starts_with_term(ms, pos + arms_offset(e, k) + 2, e->Match_1@[k].0),
        starts_with_term(
            ms,
            pos + arms_offset(e, k) + 2 + exp_tokens(e->Match_1@[k].0).len(),
            e->Match_1@[k].1,
        ),
        ms[pos + arms_offset(e, k) + 2 + exp_tokens(e->Match_1@[k].0).len() + exp_tokens(
            e->Match_1@[k].1,
        ).len()] == TokModel::RParen,
        arms_offset(e, k + 1) == arms_offset(e, k) + 3 + exp_tokens(e->Match_1@[k].0).len()
            + exp_tokens(e->Match_1@[k].1).len(),
        arms_offset(e, k + 1) < exp_tokens(e).len(),
{
    let arms = e->Match_1@;
    let s = *e->Match_0;
    let a = arms_tokens(arms);
    let big = exp_tokens(e);
    let off = (2 + exp_tokens(s).len()) as int;
    assert(big =~= seq![TokModel::LParen, TokModel::Name("match"@)] + exp_tokens(s) + a + seq![TokModel::RParen]);
    assert(big.subrange(off, off + a.len()) =~= a);
    let next = arms.subrange(0, k + 1);
    assert(next.subrange(0, k) =~= arms.subrange(0, k));
    assert(next[k] == arms[k]);
    let (p, b) = arms[k];
    let x = seq![TokModel::LParen, TokModel::FatArrow] + exp_tokens(p) + exp_tokens(b) + seq![TokModel::RParen];
    let pk = arms_tokens(arms.subrange(0, k));
    assert(arms_tokens(next) == pk + x);
    lemma_arms_prefix(arms, k + 1);
    lemma_plain_arms_index(arms, k);
    lemma_window_next(ms, pos, big, off, a, pk, x);
    let at = pos + off + pk.len();
    assert(ms.subrange(at, at + x.len())[0] == x[0]);
    assert(ms.subrange(at, at + x.len())[1] == x[1]);
    let xl = x.len() as int - 1;
    assert(ms.subrange(at, at + x.len())[xl] == x[xl]);
    let lp = exp_tokens(p).len() as int;
    let lb = exp_tokens(b).len() as int;
    assert(x.subrange(2, 2 + lp) =~= exp_tokens(p));
    assert(x.subrange(2 + lp, 2 + lp + lb) =~= exp_tokens(b));
    lemma_window(ms, at, x, 2, exp_tokens(p));
    lemma_window(ms, at, x, 2 + lp, exp_tokens(b));
}

/// After all arms of a match comes its closing parenthesis.
pub proof fn lemma_match_end(ms: Seq<TokModel>, pos: int, e: Expression)
    requires
        starts_with_term(ms, pos, e),
        e is Match,
    ensures
        ms[pos + arms_offset(e, e->Match_1@.len() as int)] == TokModel::RParen,
        exp_tokens(e).len() == arms_offset(e, e->Match_1@.len() as int) + 1,
        e->Match_1@.subrange(0, e->Match_1@.len() as int) == e->Match_1@,
{
    let arms = e->Match_1@;
    let s = *e->Match_0;
    assert(arms.subrange(0, arms.len() as int) =~= arms);
    let big = exp_tokens(e);
    let end = (2 + exp_tokens(s).len() + arms_tokens(arms).len()) as int;
    assert(big =~= seq![TokModel::LParen, TokModel::Name("match"@)] + exp_tokens(s) + arms_tokens(arms) + seq![TokModel::RParen]);
    assert(ms.subrange(pos, pos + big.len())[end] == big[end]);
}

/// Position by position, the same names with the same roles.
pub open spec fn same_terms(a: Seq<Terminal>, b: Seq<Terminal>) -> bool {
    &&& a.len() == b.len()
    &&& forall|i: int|
        0 <= i < a.len() ==> (#[trigger] a[i]).name() == b[i].name() && (a[i] is Hole) == (b[i] is Hole)
}

pub proof fn lemma_same_terms_concat(a1: Seq<Terminal>, b1: Seq<Terminal>, a2: Seq<Terminal>, b2: Seq<Terminal>)
    requires
        same_terms(a1, b1),
        same_terms(a2, b2),
    ensures
        same_terms(a1 + a2, b1 + b2),
{
    assert forall|i: int| 0 <= i < (a1 + a2).len() implies (#[trigger] (a1 + a2)[i]).name() == (b1 + b2)[i].name()
        && ((a1 + a2)[i] is Hole) == ((b1 + b2)[i] is Hole) by {
        if i < a1.len() {
            assert((a1 + a2)[i] == a1[i]);
            assert((b1 + b2)[i] == b1[i]);
        } else {
            assert((a1 + a2)[i] == a2[i - a1.len()]);
            assert((b1 + b2)[i] == b2[i - a1.len()]);
        }
    }
}

proof fn lemma_term_model_same(t1: Terminal, t2: Terminal)
    requires
        term_model(t1) == strip_term(term_model(t2)),
    ensures
        same_terms(seq![t1], seq![t2]),
{
    assert(seq![t1][0] == t1);
    assert(seq![t2][0] == t2);
}

/// A term whose model is that of another with annotations removed has,
/// position by position, terminals with the same names and roles.
pub proof fn lemma_terms_model(e1: Expression, e2: Expression)
    requires
        e1@ == strip(e2@),
    ensures
        same_terms(terms(e1), terms(e2)),
    decreases e1, 1nat,
{
    match e1 {
        Expression::Leaf(t1) => {
            assert(e2 is Leaf);
            lemma_term_model_same(t1, e2->Leaf_0);
        },
        Expression::Op(t1, cs1) => {
            assert(e2 is Op);
            let cs2 = e2->Op_1;
            assert(e1@->Op_1.len() == cs1.len());
            assert(strip(e2@)->Op_1.len() == cs2.len());
            assert forall|i: int| 0 <= i < cs1.len() implies (#[trigger] cs1@[i])@ == strip(cs2@[i]@) by {
                assert(e1@->Op_1[i] == strip(e2@)->Op_1[i]);
                assert(e1@->Op_1[i] == cs1@[i]@);
                assert(e2@->Op_1[i] == cs2@[i]@);
            }
            lemma_term_model_same(t1, e2->Op_0);
            lemma_terms_list_model(cs1@, cs2@);
            lemma_same_terms_concat(seq![t1], seq![e2->Op_0], terms_of_list(cs1@), terms_of_list(cs2@));
        },
        Expression::Match(s1, a1) => {
            assert(e2 is Match);
            let a2 = e2->Match_1;
            assert(e1@->Match_1.len() == a1.len());
            assert(strip(e2@)->Match_1.len() == a2.len());
            assert forall|i: int| 0 <= i < a1.len() implies (#[trigger] a1@[i]).0@ == strip(a2@[i].0@) && a1@[i].1@
                == strip(a2@[i].1@) by {
                assert(e1@->Match_1[i] == strip(e2@)->Match_1[i]);
                assert(e1@->Match_1[i] == (a1@[i].0@, a1@[i].1@));
                assert(e2@->Match_1[i] == (a2@[i].0@, a2@[i].1@));
            }
            lemma_terms_model(*s1, *e2->Match_0);
            lemma_terms_arms_model(a1@, a2@);
            lemma_same_terms_concat(terms_of_arms(a1@), terms_of_arms(a2@), terms(*s1), terms(*e2->Match_0));
        },
    }
}

proof fn lemma_terms_list_model(c1: Seq<Expression>, c2: Seq<Expression>)
    requires
        c1.len() == c2.len(),
        forall|i: int| 0 <= i < c1.len() ==> (#[trigger] c1[i])@ == strip(c2[i]@),
    ensures
        same_terms(terms_of_list(c1), terms_of_list(c2)),
    decreases c1, 0nat,
{
    if c1.len() > 0 {
        let n = c1.len() - 1;
        let p1 = c1.subrange(0, n);
        let p2 = c2.subrange(0, n);
        assert forall|i: int| 0 <= i < p1.len() implies (#[trigger] p1[i])@ == strip(p2[i]@) by {
            assert(p1[i] == c1[i]);
            assert(p2[i] == c2[i]);
        }
        lemma_terms_list_model(p1, p2);
        lemma_terms_model(c1[n], c2[n]);
        lemma_same_terms_concat(terms_of_list(p1), terms_of_list(p2), terms(c1[n]), terms(c2[n]));
    } else {
        assert(terms_of_list(c1) =~= seq![]);
        assert(terms_of_list(c2) =~= seq![]);
    }
}

proof fn lemma_terms_arms_model(a1: Seq<(Expression, Expression)>, a2: Seq<(Expression, Expression)>)
    requires
        a1.len() == a2.len(),
        forall|i: int| 0 <= i < a1.len() ==> (#[trigger] a1[i]).0@ == strip(a2[i].0@) && a1[i].1@ == strip(a2[i].1@),
    ensures
        same_terms(terms_of_arms(a1), terms_of_arms(a2)),
    decreases a1, 0nat,
{
    if a1.len() > 0 {
        let n = a1.len() - 1;
        let p1 = a1.subrange(0, n);
        let p2 = a2.subrange(0, n);
        assert forall|i: int| 0 <= i < p1.len() implies (#[trigger] p1[i]).0@ == strip(p2[i].0@) && p1[i].1@ == strip(p2[i].1@) by {
            assert(p1[i] == a1[i]);
            assert(p2[i] == a2[i]);
        }
        assert(a1[n].0@ == strip(a2[n].0@) && a1[n].1@ == strip(a2[n].1@));
        lemma_terms_arms_model(p1, p2);
        lemma_terms_model(a1[n].0, a2[n].0);
        lemma_terms_model(a1[n].1, a2[n].1);
        lemma_same_terms_concat(terms_of_arms(p1), terms_of_arms(p2), terms(a1[n].0), terms(a2[n].0));
        lemma_same_terms_concat(
            terms_of_arms(p1) + terms(a1[n].0),
            terms_of_arms(p2) + terms(a2[n].0),
            terms(a1[n].1),
            terms(a2[n].1),
        );
    } else {
        assert(terms_of_arms(a1) =~= seq![]);
        assert(terms_of_arms(a2) =~= seq![]);
    }
}

/// Streams with the same names and roles agree on consistency and on their
/// first conflict.
pub proof fn lemma_same_terms_roles(a: Seq<Terminal>, b: Seq<Terminal>)
    requires
        same_terms(a, b),
    ensures
        roles_consistent(a) <==> roles_consistent(b),
        forall|j: int| #[trigger] is_first_conflict(a, j) <==> is_first_conflict(b, j),
{
    assert forall|j: int| 0 <= j < a.len() implies #[trigger] conflict_at(a, j) == conflict_at(b, j) by {
        if conflict_at(a, j) {
            let i = choose|i: int| 0 <= i < j && #[trigger] a[i].name() == a[j].name() && (a[i] is Hole) != (a[j] is Hole);
            assert(b[i].name() == b[j].name());
        }
        if conflict_at(b, j) {
            let i = choose|i: int| 0 <= i < j && #[trigger] b[i].name() == b[j].name() && (b[i] is Hole) != (b[j] is Hole);
            assert(a[i].name() == a[j].name());
        }
    }
    assert forall|j: int| #[trigger] is_first_conflict(a, j) <==> is_first_conflict(b, j) by {
        if 0 <= j < a.len() {
            assert(conflict_at(a, j) == conflict_at(b, j));
            assert forall|k: int| 0 <= k < j implies conflict_at(a, k) == conflict_at(b, k) by {
                assert(conflict_at(a, k) == conflict_at(b, k));
            }
        }
    }
    if roles_consistent(a) {
        assert forall|i: int, j: int| 0 <= i < b.len() && 0 <= j < b.len() && #[trigger] b[i].name() == #[trigger] b[j].name()
            implies (b[i] is Hole) == (b[j] is Hole) by {
            assert(a[i].name() == a[j].name());
        }
    }
    if roles_consistent(b) {
        assert forall|i: int, j: int| 0 <= i < a.len() && 0 <= j < a.len() && #[trigger] a[i].name() == #[trigger] a[j].name()
            implies (a[i] is Hole) == (a[j] is Hole) by {
            assert(b[i].name() == b[j].name());
        }
    }
}

/// The arrows that join the two sides of a rule.
pub open spec fn is_rule_arrow(a: TokModel) -> bool {
    a == TokModel::FatArrow || a == TokModel::BiArrow || a == TokModel::SearchArrow
}

/// The tokens of `rw name source arrow destination`.
pub open spec fn rule_tokens(n: Seq<char>, src: Expression, arrow: TokModel, dst: Expression) -> Seq<TokModel> {
    seq![TokModel::Name("rw"@), TokModel::Name(n)] + exp_tokens(src) + seq![arrow] + exp_tokens(dst)
}

/// The tokens from `pos` on begin with a rule of plain terms.
pub open spec fn rule_at(
    ms: Seq<TokModel>,
    pos: int,
    n: Seq<char>,
    src: Expression,
    arrow: TokModel,
    dst: Expression,
) -> bool {
    &&& plain(src)
    &&& plain(dst)
    &&& is_rule_arrow(arrow)
    &&& 0 <= pos
    &&& pos + rule_tokens(n, src, arrow, dst).len() <= ms.len()
    &&& ms.subrange(pos, pos + rule_tokens(n, src, arrow, dst).len()) == rule_tokens(n, src, arrow, dst)
}

/// A statement may end at `q`: at the end, or at a line break.
pub open spec fn statement_ends(ms: Seq<TokModel>, q: int) -> bool {
    q == ms.len() || (0 <= q < ms.len() && ms[q] == TokModel::Newline)
}

/// The rule of that arrow, without precondition or conditions, from `src` to
/// `dst` with their annotations removed.
pub open spec fn rewrite_is(rw: Rewrite, arrow: TokModel, src: Expression, dst: Expression) -> bool {
    match rw {
        Rewrite::DRewrite(p, s, d, cs) => arrow == TokModel::FatArrow && p is None && s@ == strip(src@) && d@
            == strip(dst@) && cs@.len() == 0,
        Rewrite::BRewrite(p, s, d, cs) => arrow == TokModel::BiArrow && p is None && s@ == strip(src@) && d@
            == strip(dst@) && cs@.len() == 0,
        Rewrite::AddSearcher(p, s, d, cs) => arrow == TokModel::SearchArrow && p is None && s@ == strip(src@)
            && d@ == strip(dst@) && cs@.len() == 0,
    }
}

/// The validation scope of a rule from `src` to `dst`.
pub open spec fn rule_scope(src: Expression, dst: Expression) -> Seq<Terminal> {
    terms(src) + terms(dst)
}

pub proof fn lemma_rule_parts(
    ms: Seq<TokModel>,
    pos: int,
    n: Seq<char>,
    src: Expression,
    arrow: TokModel,
    dst: Expression,
)
    requires
        rule_at(ms, pos, n, src, arrow, dst),
    ensures
        ms[pos] == TokModel::Name("rw"@),
        ms[pos + 1] == TokModel::Name(n),
        starts_with_term(ms, pos + 2, src),
        ms[pos + 2 + exp_tokens(src).len()] == arrow,
        starts_with_term(ms, pos + 3 + exp_tokens(src).len(), dst),
        rule_tokens(n, src, arrow, dst).len() == 3 + exp_tokens(src).len() + exp_tokens(dst).len(),
{
    let big = rule_tokens(n, src, arrow, dst);
    let ls = exp_tokens(src).len() as int;
    let ld = exp_tokens(dst).len() as int;
    let w = ms.subrange(pos, pos + big.len());
    assert(w[0] == ms[pos]);
    assert(w[1] == ms[pos + 1]);
    assert(w[2 + ls] == ms[pos + 2 + ls]);
    assert(big.subrange(2, 2 + ls) =~= exp_tokens(src));
    assert(big.subrange(3 + ls, 3 + ls + ld) =~= exp_tokens(dst));
    lemma_window(ms, pos, big, 2, exp_tokens(src));
    lemma_window(ms, pos, big, 3 + ls, exp_tokens(dst));
}

/// The text of an arrow.
pub open spec fn arrow_text(a: TokModel) -> Seq<char> {
    if a == TokModel::FatArrow {
        "=>"@
    } else if a == TokModel::BiArrow {
        "<=>"@
    } else {
        "|>"@
    }
}

/// A rule name that reads back as one name.
pub open spec fn rule_name_ok(n: Seq<char>) -> bool {
    valid_name(n) && n[0] != '?' && word_token(n) == TokModel::Name(n)
}

/// The canonical text of a rule: `rw name source arrow destination`.
pub open spec fn rule_text(n: Seq<char>, src: Expression, arrow: TokModel, dst: Expression) -> Seq<char> {
    "rw "@ + n + " "@ + sexp(src) + " "@ + arrow_text(arrow) + " "@ + sexp(dst)
}

/// `t` is the canonical text of a rule of plain terms.
pub open spec fn is_rule_text(t: Seq<char>, n: Seq<char>, src: Expression, arrow: TokModel, dst: Expression) -> bool {
    &&& rule_name_ok(n)
    &&& plain(src)
    &&& plain(dst)
    &&& is_rule_arrow(arrow)
    &&& t == rule_text(n, src, arrow, dst)
}

proof fn lemma_lex_word(text: Seq<char>, i: int, w: Seq<char>, lines: bool)
    requires
        valid_name(w),
        w[0] != '?',
        holds_at(text, i, w),
        ends_ok(text, i + w.len()),
    ensures
        lex_from(text, i, lines) == then_tokens(seq![word_token(w)], lex_from(text, i + w.len(), lines)),
{
    assert(text[i] == text.subrange(i, i + w.len())[0]);
    assert(!is_delimiter(w[0]));
    lemma_word_end(text, i, w);
}

proof fn lemma_space(text: Seq<char>, i: int, lines: bool)
    requires
        0 <= i < text.len(),
        text[i] == ' ',
    ensures
        lex_from(text, i, lines) == lex_from(text, i + 1, lines),
{
}

/// Lexing the canonical text of a rule gives the rule's tokens.
pub proof fn lemma_lex_rule(
    text: Seq<char>,
    i: int,
    n: Seq<char>,
    src: Expression,
    arrow: TokModel,
    dst: Expression,
    lines: bool,
)
    requires
        rule_name_ok(n),
        plain(src),
        plain(dst),
        is_rule_arrow(arrow),
        holds_at(text, i, rule_text(n, src, arrow, dst)),
        ends_ok(text, i + rule_text(n, src, arrow, dst).len()),
    ensures
        lex_from(text, i, lines) == then_tokens(
            rule_tokens(n, src, arrow, dst),
            lex_from(text, i + rule_text(n, src, arrow, dst).len(), lines),
        ),
{
    reveal_strlit("rw ");
    reveal_strlit(" ");
    reveal_strlit("rw");
    reveal_strlit("match");
    reveal_strlit("=>");
    reveal_strlit("->");
    reveal_strlit("<=>");
    reveal_strlit("|>");
    let rw = seq!['r', 'w'];
    let sp = seq![' '];
    let a = arrow_text(arrow);
    let ss = sexp(src);
    let sd = sexp(dst);
    assert("rw "@ =~= rw + sp);
    assert(" "@ =~= sp);
    let t = rule_text(n, src, arrow, dst);
    assert(t =~= rw + sp + n + sp + ss + sp + a + sp + sd);
    lemma_holds_split(text, i, rw + sp + n + sp + ss + sp + a + sp, sd);
    lemma_holds_split(text, i, rw + sp + n + sp + ss + sp + a, sp);
    lemma_holds_split(text, i, rw + sp + n + sp + ss + sp, a);
    lemma_holds_split(text, i, rw + sp + n + sp + ss, sp);
    lemma_holds_split(text, i, rw + sp + n + sp, ss);
    lemma_holds_split(text, i, rw + sp + n, sp);
    lemma_holds_split(text, i, rw + sp, n);
    lemma_holds_split(text, i, rw, sp);
    let i1 = i + 2;
    let i2 = i1 + 1;
    let i3 = i2 + n.len();
    let i4 = i3 + 1;
    let i5 = i4 + ss.len();
    let i6 = i5 + 1;
    let i7 = i6 + a.len();
    let i8 = i7 + 1;
    let i9 = i8 + sd.len();
    assert(text[i1] == text.subrange(i1, i1 + 1)[0]);
    assert(text[i3] == text.subrange(i3, i3 + 1)[0]);
    assert(text[i5] == text.subrange(i5, i5 + 1)[0]);
    assert(text[i7] == text.subrange(i7, i7 + 1)[0]);
    assert forall|k: int| 0 <= k < rw.len() implies !is_delimiter(#[trigger] rw[k]) by {}
    assert forall|k: int| 0 <= k < a.len() implies !is_delimiter(#[trigger] a[k]) by {}
    assert("rw"@ =~= rw);
    assert(rw[0] != "=>"@[0] && rw[0] != "->"@[0] && rw[0] != "|>"@[0]);
    assert(rw.len() != "<=>"@.len());
    assert(word_token(rw) == TokModel::Name("rw"@));
    if arrow == TokModel::BiArrow {
        assert(a.len() != "=>"@.len() && a.len() != "->"@.len());
    } else if arrow == TokModel::SearchArrow {
        assert(a[0] != "=>"@[0] && a[0] != "->"@[0] && a.len() != "<=>"@.len());
    }
    assert(word_token(a) == arrow);
    lemma_lex_word(text, i, rw, lines);
    lemma_space(text, i1, lines);
    lemma_lex_word(text, i2, n, lines);
    lemma_space(text, i3, lines);
    lemma_lex_exp(text, i4, src, lines);
    lemma_space(text, i5, lines);
    lemma_lex_word(text, i6, a, lines);
    lemma_space(text, i7, lines);
    lemma_lex_exp(text, i8, dst, lines);
    let rest = lex_from(text, i9, lines);
    lemma_then_assoc(seq![arrow], exp_tokens(dst), rest);
    lemma_then_assoc(exp_tokens(src), seq![arrow] + exp_tokens(dst), rest);
    lemma_then_assoc(seq![TokModel::Name(n)], exp_tokens(src) + (seq![arrow] + exp_tokens(dst)), rest);
    lemma_then_assoc(
        seq![TokModel::Name("rw"@)],
        seq![TokModel::Name(n)] + (exp_tokens(src) + (seq![arrow] + exp_tokens(dst))),
        rest,
    );
    assert(seq![TokModel::Name("rw"@)] + (seq![TokModel::Name(n)] + (exp_tokens(src) + (seq![arrow]
        + exp_tokens(dst)))) =~= rule_tokens(n, src, arrow, dst));
}

/// A rule given by its name, source, arrow and destination.
pub type RuleSpec = (Seq<char>, Expression, TokModel, Expression);

pub open spec fn rule_spec_ok(r: RuleSpec) -> bool {
    rule_name_ok(r.0) && plain(r.1) && plain(r.3) && is_rule_arrow(r.2)
}

/// The rules written one per line.
pub open spec fn rules_text(rs: Seq<RuleSpec>) -> Seq<char>
    decreases rs.len(),
{
    if rs.len() == 0 {
        seq![]
    } else if rs.len() == 1 {
        rule_text(rs[0].0, rs[0].1, rs[0].2, rs[0].3)
    } else {
        let l = rs.last();
        rules_text(rs.drop_last()) + seq!['\n'] + rule_text(l.0, l.1, l.2, l.3)
    }
}

/// The tokens of the rules, with a line break between two rules.
pub open spec fn rules_tokens(rs: Seq<RuleSpec>) -> Seq<TokModel>
    decreases rs.len(),
{
    if rs.len() == 0 {
        seq![]
    } else if rs.len() == 1 {
        rule_tokens(rs[0].0, rs[0].1, rs[0].2, rs[0].3)
    } else {
        let l = rs.last();
        rules_tokens(rs.drop_last()) + seq![TokModel::Newline] + rule_tokens(l.0, l.1, l.2, l.3)
    }
}

/// `t` is the text of these rules of plain terms, one per line.
pub open spec fn is_rules_text(t: Seq<char>, rs: Seq<RuleSpec>) -> bool {
    &&& forall|k: int| 0 <= k < rs.len() ==> rule_spec_ok(#[trigger] rs[k])
    &&& t == rules_text(rs)
}

pub proof fn lemma_lex_rules(text: Seq<char>, i: int, rs: Seq<RuleSpec>)
    requires
        forall|k: int| 0 <= k < rs.len() ==> rule_spec_ok(#[trigger] rs[k]),
        holds_at(text, i, rules_text(rs)),
        ends_ok(text, i + rules_text(rs).len()),
    ensures
        lex_from(text, i, true) == then_tokens(rules_tokens(rs), lex_from(text, i + rules_text(rs).len(), true)),
    decreases rs.len(),
{
    if rs.len() == 0 {
        match lex_from(text, i, true) {
            Some(x) => {
                assert(seq![] + x =~= x);
            },
            None => {},
        }
    } else if rs.len() == 1 {
        assert(rule_spec_ok(rs[0]));
        lemma_lex_rule(text, i, rs[0].0, rs[0].1, rs[0].2, rs[0].3, true);
    } else {
        let pre = rs.drop_last();
        let l = rs.last();
        assert(rule_spec_ok(rs[rs.len() - 1]));
        assert forall|k: int| 0 <= k < pre.len() implies rule_spec_ok(#[trigger] pre[k]) by {
            assert(pre[k] == rs[k]);
        }
        let tp = rules_text(pre);
        let tl = rule_text(l.0, l.1, l.2, l.3);
        lemma_holds_split(text, i, tp + seq!['\n'], tl);
        lemma_holds_split(text, i, tp, seq!['\n']);
        let a = i + tp.len();
        assert(text[a] == text.subrange(a, a + 1)[0]);
        lemma_lex_rules(text, i, pre);
        assert(lex_from(text, a, true) == then_tokens(seq![TokModel::Newline], lex_from(text, a + 1, true)));
        lemma_lex_rule(text, a + 1, l.0, l.1, l.2, l.3, true);
        let rest = lex_from(text, a + 1 + tl.len(), true);
        lemma_then_assoc(seq![TokModel::Newline], rule_tokens(l.0, l.1, l.2, l.3), rest);
        lemma_then_assoc(rules_tokens(pre), seq![TokModel::Newline] + rule_tokens(l.0, l.1, l.2, l.3), rest);
        assert(rules_tokens(pre) + (seq![TokModel::Newline] + rule_tokens(l.0, l.1, l.2, l.3)) =~= rules_tokens(rs));
    }
}

/// Where the tokens of the rules before `k` end.
pub open spec fn rules_end(rs: Seq<RuleSpec>, k: int) -> int {
    rules_tokens(rs.subrange(0, k)).len() as int
}

proof fn lemma_rules_prefix(rs: Seq<RuleSpec>, k: int)
    requires
        0 <= k <= rs.len(),
    ensures
        begins_with(rules_tokens(rs), rules_tokens(rs.subrange(0, k))),
    decreases rs.len(),
{
    if k == rs.len() {
        assert(rs.subrange(0, k) =~= rs);
        assert(rules_tokens(rs).subrange(0, rules_tokens(rs).len() as int) =~= rules_tokens(rs));
    } else {
        let pre = rs.drop_last();
        lemma_rules_prefix(pre, k);
        assert(pre.subrange(0, k) =~= rs.subrange(0, k));
        let c = rules_tokens(rs.subrange(0, k));
        let b = rules_tokens(pre);
        let l = rs.last();
        if rs.len() == 1 {
            assert(rs.subrange(0, 0) =~= seq![]);
            assert(rules_tokens(rs).subrange(0, 0) =~= seq![]);
        } else {
            assert(rules_tokens(rs) == b + seq![TokModel::Newline] + rule_tokens(l.0, l.1, l.2, l.3));
            assert(rules_tokens(rs).subrange(0, c.len() as int) =~= b.subrange(0, c.len() as int));
        }
    }
}

/// Rule `k` stands in the tokens of the rules: after the rules before it and,
/// past the first, a line break; a line break or the end follows it.
pub proof fn lemma_rule_in_rules(rs: Seq<RuleSpec>, k: int)
    requires
        forall|q: int| 0 <= q < rs.len() ==> rule_spec_ok(#[trigger] rs[q]),
        0 <= k < rs.len(),
    ensures
        k > 0 ==> rules_tokens(rs)[rules_end(rs, k)] == TokModel::Newline,
        rule_at(
            rules_tokens(rs),
            if k == 0 { 0 } else { rules_end(rs, k) + 1 },
            rs[k].0,
            rs[k].1,
            rs[k].2,
            rs[k].3,
        ),
        (if k == 0 { 0 } else { rules_end(rs, k) + 1 }) + rule_tokens(rs[k].0, rs[k].1, rs[k].2, rs[k].3).len()
            == rules_end(rs, k + 1),
        statement_ends(rules_tokens(rs), rules_end(rs, k + 1)),
        rules_end(rs, rs.len() as int) == rules_tokens(rs).len(),
{
    let ms = rules_tokens(rs);
    assert(rule_spec_ok(rs[k]));
    assert(rs.subrange(0, rs.len() as int) =~= rs);
    let nx = rs.subrange(0, k + 1);
    assert(nx.drop_last() =~= rs.subrange(0, k));
    assert(nx.last() == rs[k]);
    let x = rule_tokens(rs[k].0, rs[k].1, rs[k].2, rs[k].3);
    let c = rules_tokens(rs.subrange(0, k));
    let start = if k == 0 { 0 } else { rules_end(rs, k) + 1 };
    let mid = if k == 0 { seq![] } else { seq![TokModel::Newline] };
    if k == 0 {
        assert(rs.subrange(0, 0) =~= seq![]);
        assert(rules_tokens(nx) =~= c + mid + x);
    } else {
        assert(rules_tokens(nx) =~= c + mid + x);
    }
    lemma_rules_prefix(rs, k + 1);
    let w = rules_tokens(nx);
    assert(ms.subrange(0, w.len() as int) == w);
    if k > 0 {
        assert(w[c.len() as int] == TokModel::Newline);
        assert(ms.subrange(0, w.len() as int)[c.len() as int] == ms[c.len() as int]);
    }
    assert(ms.subrange(start, start + x.len()) =~= x) by {
        assert forall|q: int| 0 <= q < x.len() implies ms.subrange(start, start + x.len())[q] == x[q] by {
            assert(ms.subrange(0, w.len() as int)[start + q] == w[start + q]);
            assert(w[start + q] == x[q]);
        }
    }
    if k + 1 < rs.len() {
        let nx2 = rs.subrange(0, k + 2);
        assert(nx2.drop_last() =~= nx);
        lemma_rules_prefix(rs, k + 2);
        let w2 = rules_tokens(nx2);
        let l2 = nx2.last();
        assert(w2 == w + seq![TokModel::Newline] + rule_tokens(l2.0, l2.1, l2.2, l2.3));
        assert(w2[w.len() as int] == TokModel::Newline);
        assert(ms.subrange(0, w2.len() as int)[w.len() as int] == ms[w.len() as int]);
    }
}

pub proof fn lemma_rules_end_mono(rs: Seq<RuleSpec>, a: int, b: int)
    requires
        0 <= a <= b <= rs.len(),
    ensures
        rules_end(rs, a) <= rules_end(rs, b),
{
    let sb = rs.subrange(0, b);
    lemma_rules_prefix(sb, a);
    assert(sb.subrange(0, a) =~= rs.subrange(0, a));
}

} // verus!
