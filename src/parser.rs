//! Pattern text in, syntax tree out.
//!
//! Positions in errors are zero-based character indices into the pattern.
use crate::ast::{views, ParseError, Term, AST};
use vstd::prelude::*;

verus! {

broadcast use vstd::seq::group_seq_axioms, vstd::std_specs::vec::group_vec_axioms;

/// The characters that a backslash may precede.
pub open spec fn escapable(c: char) -> bool {
    c == '\\' || c == '(' || c == ')' || c == '|' || c == '+' || c == '*' || c == '_'
}

/// Alternatives joined by `Or`, leaning to the right: `[a, b, c]` is `a|(b|c)`.
pub open spec fn or_chain(xs: Seq<Term>) -> Term
    decreases xs.len(),
{
    if xs.len() <= 1 {
        if xs.len() == 1 { xs[0] } else { Term::Char('a') }
    } else {
        Term::Or(Box::new(xs[0]), Box::new(or_chain(xs.drop_first())))
    }
}

/// Folding alternatives: nothing for none, else their right-leaning `Or` chain.
pub open spec fn fold_or_spec(xs: Seq<Term>) -> Option<Term> {
    if xs.len() == 0 { None } else { Some(or_chain(xs)) }
}

/// Validates the character `c` that follows a backslash at `pos`.
pub fn parse_escape(pos: usize, c: char) -> (r: Result<AST, ParseError>)
    ensures
        escapable(c) ==> (r matches Ok(a) && a@ == Term::Char(c)),
        !escapable(c) ==> r == Err::<AST, ParseError>(ParseError::InvalidEscape(pos, c)),
{
    match c {
        '\\' | '(' | ')' | '|' | '+' | '*' | '_' => Ok(AST::Char(c)),
        _ => Err(ParseError::InvalidEscape(pos, c)),
    }
}

proof fn lemma_or_chain_merge_last(p: Seq<Term>, s: Term, t: Term)
    ensures
        or_chain(p.push(s).push(t)) == or_chain(
            p.push(Term::Or(Box::new(s), Box::new(t))),
        ),
    decreases p.len(),
{
    if p.len() > 0 {
        lemma_or_chain_merge_last(p.drop_first(), s, t);
        assert(p.push(s).push(t).drop_first() =~= p.drop_first().push(s).push(t));
        assert(p.push(Term::Or(Box::new(s), Box::new(t))).drop_first() =~= p.drop_first().push(
            Term::Or(Box::new(s), Box::new(t)),
        ));
    } else {
        assert(p.push(s).push(t).drop_first() =~= seq![t]);
        assert(or_chain(seq![t]) == t);
        assert(p.push(Term::Or(Box::new(s), Box::new(t))) =~= seq![Term::Or(Box::new(s), Box::new(t))]);
    }
}

/// Folds alternatives, written left to right, into one tree that leans to the right.
pub fn fold_or(seq_or: Vec<AST>) -> (r: Option<AST>)
    ensures
        match r {
            Some(a) => fold_or_spec(views(seq_or@)) == Some(a@),
            None => fold_or_spec(views(seq_or@)) is None,
        },
{
    let ghost whole = views(seq_or@);
    let mut rest = seq_or;
    let mut ast = match rest.pop() {
        Some(a) => a,
        None => {
            return None;
        },
    };
    assert(views(rest@).push(ast@) =~= whole);
    while rest.len() > 0
        invariant
            or_chain(views(rest@).push(ast@)) == or_chain(whole),
            whole.len() > 0,
        decreases rest.len(),
    {
        let ghost before = rest@;
        let s = rest.pop().unwrap();
        proof {
            assert(views(before) =~= views(rest@).push(s@));
            lemma_or_chain_merge_last(views(rest@), s@, ast@);
        }
        ast = AST::Or(Box::new(s), Box::new(ast));
    }
    assert(views(rest@).push(ast@) =~= seq![ast@]);
    Some(ast)
}


/// Folding one alternative: an error for no atom, the atom itself for one,
/// else a `Sequence` in written order.
pub open spec fn fold_seq_spec(xs: Seq<Term>) -> Result<Term, ParseError> {
    if xs.len() == 0 {
        Err(ParseError::Empty)
    } else if xs.len() == 1 {
        Ok(xs[0])
    } else {
        Ok(Term::Sequence(xs))
    }
}

/// What an enclosing group had collected when a parenthesis opened.
pub struct Frame {
    pub seq: Seq<Term>,
    pub alts: Seq<Term>,
}

/// The parser between two characters: the atoms of the current alternative,
/// the finished alternatives of the current group, the enclosing groups, and
/// whether the last character was an unconsumed backslash.
pub struct Scan {
    pub seq: Seq<Term>,
    pub alts: Seq<Term>,
    pub stack: Seq<Frame>,
    pub escape: bool,
}

pub open spec fn scan_start() -> Scan {
    Scan { seq: seq![], alts: seq![], stack: seq![], escape: false }
}

/// The quantifier that the character `c` stands for, applied to `t`.
pub open spec fn quantify(c: char, t: Term) -> Term {
    if c == '+' {
        Term::Plus(Box::new(t))
    } else if c == '*' {
        Term::Star(Box::new(t))
    } else {
        Term::Question(Box::new(t))
    }
}

pub open spec fn is_quantifier(c: char) -> bool {
    c == '+' || c == '*' || c == '?'
}

/// One character `c`, at position `pos`, read in state `st`.
pub open spec fn step(st: Scan, pos: int, c: char) -> Result<Scan, ParseError> {
    if st.escape {
        if escapable(c) {
            Ok(Scan { seq: st.seq.push(Term::Char(c)), escape: false, ..st })
        } else {
            Err(ParseError::InvalidEscape(pos as usize, c))
        }
    } else if c == '\\' {
        Ok(Scan { escape: true, ..st })
    } else if c == '(' {
        Ok(
            Scan {
                seq: seq![],
                alts: seq![],
                stack: st.stack.push(Frame { seq: st.seq, alts: st.alts }),
                escape: false,
            },
        )
    } else if c == ')' {
        if st.stack.len() == 0 {
            Err(ParseError::NoLeftParen(pos as usize))
        } else {
            match fold_seq_spec(st.seq) {
                Err(e) => Err(e),
                Ok(g) => {
                    let top = st.stack.last();
                    Ok(
                        Scan {
                            seq: top.seq.push(or_chain(st.alts.push(g))),
                            alts: top.alts,
                            stack: st.stack.drop_last(),
                            escape: false,
                        },
                    )
                },
            }
        }
    } else if c == '|' {
        match fold_seq_spec(st.seq) {
            Err(e) => Err(e),
            Ok(g) => Ok(Scan { seq: seq![], alts: st.alts.push(g), ..st }),
        }
    } else if is_quantifier(c) {
        if st.seq.len() == 0 {
            Err(ParseError::NoPrev(pos as usize))
        } else {
            Ok(Scan { seq: st.seq.drop_last().push(quantify(c, st.seq.last())), ..st })
        }
    } else {
        Ok(Scan { seq: st.seq.push(Term::Char(c)), ..st })
    }
}

/// The characters `s`, the first of them at position `pos`, read from state `st`;
/// the first error stops the reading.
pub open spec fn run(st: Scan, s: Seq<char>, pos: int) -> Result<Scan, ParseError>
    decreases s.len(),
{
    if s.len() == 0 {
        Ok(st)
    } else {
        match run(st, s.drop_last(), pos) {
            Err(e) => Err(e),
            Ok(mid) => step(mid, pos + s.len() - 1, s.last()),
        }
    }
}

/// The end of a pattern of `len` characters, reached in state `st`.
pub open spec fn finish(st: Scan, len: int) -> Result<Term, ParseError> {
    if st.escape {
        Err(ParseError::TrailingEscape((len - 1) as usize))
    } else if st.stack.len() > 0 {
        Err(ParseError::NoRightParen)
    } else {
        match fold_seq_spec(st.seq) {
            Err(e) => Err(e),
            Ok(g) => Ok(or_chain(st.alts.push(g))),
        }
    }
}

/// The tree of the pattern `s`, or the first fault in it.
pub open spec fn parse_spec(s: Seq<char>) -> Result<Term, ParseError> {
    match run(scan_start(), s, 0) {
        Err(e) => Err(e),
        Ok(st) => finish(st, s.len() as int),
    }
}

/// The enclosing groups that a stack of saved working lists stands for.
pub open spec fn frames(stack: Seq<(Vec<AST>, Vec<AST>)>) -> Seq<Frame> {
    stack.map_values(|f: (Vec<AST>, Vec<AST>)| Frame { seq: views(f.0@), alts: views(f.1@) })
}

proof fn lemma_frames_push(stack: Seq<(Vec<AST>, Vec<AST>)>, f: (Vec<AST>, Vec<AST>))
    ensures
        frames(stack.push(f)) == frames(stack).push(Frame { seq: views(f.0@), alts: views(f.1@) }),
{
    assert(frames(stack.push(f)) =~= frames(stack).push(
        Frame { seq: views(f.0@), alts: views(f.1@) },
    ));
}

proof fn lemma_frames_drop_last(stack: Seq<(Vec<AST>, Vec<AST>)>)
    requires
        stack.len() > 0,
    ensures
        frames(stack.drop_last()) == frames(stack).drop_last(),
        frames(stack).last() == (Frame { seq: views(stack.last().0@), alts: views(stack.last().1@) }),
{
    assert(frames(stack.drop_last()) =~= frames(stack).drop_last());
}

/// The state that a parser's working lists stand for.
pub open spec fn scan_of(
    seq: Seq<AST>,
    alts: Seq<AST>,
    stack: Seq<(Vec<AST>, Vec<AST>)>,
    escape: bool,
) -> Scan {
    Scan {
        seq: views(seq),
        alts: views(alts),
        stack: frames(stack),
        escape,
    }
}

/// Folds the atoms of one alternative.
pub fn fold_seq(seq: Vec<AST>) -> (r: Result<AST, ParseError>)
    ensures
        match r {
            Ok(a) => fold_seq_spec(views(seq@)) == Ok::<Term, ParseError>(a@),
            Err(e) => fold_seq_spec(views(seq@)) == Err::<Term, ParseError>(e),
        },
{
    let mut seq = seq;
    if seq.len() == 0 {
        Err(ParseError::Empty)
    } else if seq.len() == 1 {
        let a = seq.pop().unwrap();
        Ok(a)
    } else {
        let r = AST::Sequence(seq);
        assert(r@ == Term::Sequence(views(seq@))) by {
            assert(views(seq@) =~= match r@ { Term::Sequence(xs) => xs, _ => seq![] });
        }
        Ok(r)
    }
}

proof fn lemma_views_push(v: Seq<AST>, a: AST)
    ensures
        views(v.push(a)) == views(v).push(a@),
{
    assert(views(v.push(a)) =~= views(v).push(a@));
}

proof fn lemma_views_drop_last(v: Seq<AST>)
    requires
        v.len() > 0,
    ensures
        views(v.drop_last()) == views(v).drop_last(),
        views(v).last() == v.last()@,
{
    assert(views(v.drop_last()) =~= views(v).drop_last());
}

proof fn lemma_run_err_extends(st: Scan, s: Seq<char>, k: int, pos: int)
    requires
        0 <= k <= s.len(),
        run(st, s.take(k), pos) is Err,
    ensures
        run(st, s, pos) == run(st, s.take(k), pos),
    decreases s.len(),
{
    if k == s.len() {
        assert(s.take(k) =~= s);
    } else {
        assert(s.drop_last().take(k) =~= s.take(k));
        lemma_run_err_extends(st, s.drop_last(), k, pos);
    }
}

/// Parses a pattern into its syntax tree, or reports the first fault in it.
pub fn parse(expr: &str) -> (r: Result<AST, ParseError>)
    ensures
        match r {
            Ok(a) => parse_spec(expr@) == Ok::<Term, ParseError>(a@),
            Err(e) => parse_spec(expr@) == Err::<Term, ParseError>(e),
        },
{
    let n = expr.unicode_len();
    let mut seq: Vec<AST> = Vec::new();
    let mut alts: Vec<AST> = Vec::new();
    let mut stack: Vec<(Vec<AST>, Vec<AST>)> = Vec::new();
    let mut escape = false;
    let mut i: usize = 0;
    assert(expr@.take(0) =~= seq![]);
    assert(views(seq@) =~= seq![]);
    assert(frames(stack@) =~= seq![]);
    while i < n
        invariant
            n == expr@.len(),
            i <= n,
            run(scan_start(), expr@.take(i as int), 0) == Ok::<Scan, ParseError>(
                scan_of(seq@, alts@, stack@, escape),
            ),
        decreases n - i,
    {
        let c = expr.get_char(i);
        let ghost st = scan_of(seq@, alts@, stack@, escape);
        proof {
            assert(expr@.take(i + 1).drop_last() =~= expr@.take(i as int));
            assert(expr@.take(i + 1).last() == c);
            assert(run(scan_start(), expr@.take(i + 1), 0) == step(st, i as int, c));
        }
        if escape {
            match parse_escape(i, c) {
                Ok(a) => {
                    proof { lemma_views_push(seq@, a); }
                    seq.push(a);
                    escape = false;
                },
                Err(e) => {
                    proof { lemma_run_err_extends(scan_start(), expr@, i + 1, 0); }
                    return Err(e);
                },
            }
        } else if c == '\\' {
            escape = true;
        } else if c == '(' {
            let s = seq;
            let a = alts;
            seq = Vec::new();
            alts = Vec::new();
            proof {
                lemma_frames_push(stack@, (s, a));
                assert(views(seq@) =~= seq![]);
            }
            stack.push((s, a));
        } else if c == ')' {
            proof {
                if stack.len() > 0 {
                    lemma_frames_drop_last(stack@);
                }
            }
            let top = stack.pop();
            match top {
                None => {
                    proof { lemma_run_err_extends(scan_start(), expr@, i + 1, 0); }
                    return Err(ParseError::NoLeftParen(i));
                },
                Some(top) => {
                    let (prev_seq, prev_alts) = top;
                    let g = match fold_seq(seq) {
                        Ok(g) => g,
                        Err(e) => {
                            proof { lemma_run_err_extends(scan_start(), expr@, i + 1, 0); }
                            return Err(e);
                        },
                    };
                    proof { lemma_views_push(alts@, g); }
                    alts.push(g);
                    let group = match fold_or(alts) {
                        Some(group) => group,
                        None => {
                            return Err(ParseError::Empty);
                        },
                    };
                    seq = prev_seq;
                    proof { lemma_views_push(seq@, group); }
                    seq.push(group);
                    alts = prev_alts;
                },
            }
        } else if c == '|' {
            let g = match fold_seq(seq) {
                Ok(g) => g,
                Err(e) => {
                    proof { lemma_run_err_extends(scan_start(), expr@, i + 1, 0); }
                    return Err(e);
                },
            };
            proof { lemma_views_push(alts@, g); }
            alts.push(g);
            seq = Vec::new();
            assert(views(seq@) =~= seq![]);
        } else if c == '+' || c == '*' || c == '?' {
            proof {
                if seq.len() > 0 {
                    lemma_views_drop_last(seq@);
                }
            }
            match seq.pop() {
                None => {
                    proof { lemma_run_err_extends(scan_start(), expr@, i + 1, 0); }
                    return Err(ParseError::NoPrev(i));
                },
                Some(last) => {
                    let q = if c == '+' {
                        AST::Plus(Box::new(last))
                    } else if c == '*' {
                        AST::Star(Box::new(last))
                    } else {
                        AST::Question(Box::new(last))
                    };
                    proof { lemma_views_push(seq@, q); }
                    seq.push(q);
                },
            }
        } else {
            proof { lemma_views_push(seq@, AST::Char(c)); }
            seq.push(AST::Char(c));
        }
        i = i + 1;
    }
    assert(expr@.take(n as int) =~= expr@);
    if escape {
        return Err(ParseError::TrailingEscape(n - 1));
    }
    if stack.len() > 0 {
        return Err(ParseError::NoRightParen);
    }
    let g = match fold_seq(seq) {
        Ok(g) => g,
        Err(e) => {
            return Err(e);
        },
    };
    proof { lemma_views_push(alts@, g); }
    alts.push(g);
    match fold_or(alts) {
        Some(a) => Ok(a),
        None => Err(ParseError::Empty),
    }
}


/// The characters with a meaning of their own in a pattern.
pub open spec fn is_meta(c: char) -> bool {
    c == '\\' || c == '(' || c == ')' || c == '|' || is_quantifier(c)
}

pub(crate) proof fn lemma_run_push(st: Scan, s: Seq<char>, c: char, pos: int)
    ensures
        run(st, s.push(c), pos) == match run(st, s, pos) {
            Err(e) => Err(e),
            Ok(mid) => step(mid, pos + s.len(), c),
        },
{
    assert(s.push(c).drop_last() =~= s);
}

/// A pattern of one character other than a metacharacter is that character.
pub proof fn lemma_parse_single(c: char)
    requires
        !is_meta(c),
    ensures
        parse_spec(seq![c]) == Ok::<Term, ParseError>(Term::Char(c)),
{
    lemma_run_push(scan_start(), seq![], c, 0);
    assert(seq![].push(c) =~= seq![c]);
    assert(scan_start().seq.push(Term::Char(c)) =~= seq![Term::Char(c)]);
    assert(scan_start().alts.push(Term::Char(c)) =~= seq![Term::Char(c)]);
}

/// A backslash and an escapable character is that character; a backslash and
/// any other character is an invalid escape at position one.
pub proof fn lemma_parse_escape(c: char)
    ensures
        escapable(c) ==> parse_spec(seq!['\\', c]) == Ok::<Term, ParseError>(Term::Char(c)),
        !escapable(c) ==> parse_spec(seq!['\\', c]) == Err::<Term, ParseError>(
            ParseError::InvalidEscape(1, c),
        ),
{
    let s = seq!['\\', c];
    lemma_run_push(scan_start(), seq![], '\\', 0);
    lemma_run_push(scan_start(), seq!['\\'], c, 0);
    assert(seq![].push('\\') =~= seq!['\\']);
    assert(seq!['\\'].push(c) =~= s);
    assert(scan_start().seq.push(Term::Char(c)) =~= seq![Term::Char(c)]);
    assert(scan_start().alts.push(Term::Char(c)) =~= seq![Term::Char(c)]);
}

} // verus!
