//! The canonical text of a syntax tree, and the proof that parsing it gives
//! the tree back.
use crate::ast::{views, ParseError, Term, AST};
use crate::parser::{
    escapable, fold_seq_spec, is_quantifier, lemma_run_push, or_chain, parse_spec, quantify, run,
    scan_start,
    step, Frame, Scan,
};
use vstd::prelude::*;

verus! {

broadcast use vstd::seq::group_seq_axioms, vstd::std_specs::vec::group_vec_axioms;

/// Trees that a parse can yield: no `?` character, and no sequence of fewer
/// than two parts.
pub open spec fn well_formed(t: Term) -> bool
    decreases t,
{
    match t {
        Term::Char(c) => c != '?',
        Term::Plus(x) => well_formed(*x),
        Term::Star(x) => well_formed(*x),
        Term::Question(x) => well_formed(*x),
        Term::Or(l, r) => well_formed(*l) && well_formed(*r),
        Term::Sequence(xs) => xs.len() >= 2 && parts_well_formed(xs),
    }
}

/// Every part of a sequence is well formed.
pub open spec fn parts_well_formed(xs: Seq<Term>) -> bool
    decreases xs,
{
    xs.len() == 0 || (well_formed(xs[0]) && parts_well_formed(xs.drop_first()))
}

/// The canonical text of a tree. At `level` 0 it is a whole expression, at 1
/// an alternative, at 2 an atom with its quantifiers; a part that does not fit
/// its level is put in parentheses.
pub open spec fn print(t: Term, level: int) -> Seq<char>
    decreases t, level,
{
    match t {
        Term::Char(c) => if escapable(c) { seq!['\\', c] } else { seq![c] },
        Term::Plus(x) => print(*x, 2).push('+'),
        Term::Star(x) => print(*x, 2).push('*'),
        Term::Question(x) => print(*x, 2).push('?'),
        Term::Or(l, r) => if level <= 0 {
            print(*l, 1).push('|') + print(*r, 0)
        } else {
            seq!['('] + print(t, 0) + seq![')']
        },
        Term::Sequence(xs) => if level <= 1 {
            print_parts(xs)
        } else {
            seq!['('] + print_parts(xs) + seq![')']
        },
    }
}

/// The atoms of a sequence, one after the other.
pub open spec fn print_parts(xs: Seq<Term>) -> Seq<char>
    decreases xs, 3int,
{
    if xs.len() == 0 {
        seq![]
    } else {
        print(xs[0], 2) + print_parts(xs.drop_first())
    }
}


proof fn lemma_run_append(st: Scan, a: Seq<char>, b: Seq<char>, pos: int)
    ensures
        run(st, a + b, pos) == match run(st, a, pos) {
            Err(e) => Err(e),
            Ok(mid) => run(mid, b, pos + a.len()),
        },
    decreases b.len(),
{
    if b.len() == 0 {
        assert(a + b =~= a);
    } else {
        assert((a + b).drop_last() =~= a + b.drop_last());
        assert((a + b).last() == b.last());
        lemma_run_append(st, a, b.drop_last(), pos);
    }
}

/// The atoms that an alternative holds.
pub open spec fn branch_items(t: Term) -> Seq<Term> {
    match t {
        Term::Sequence(xs) => xs,
        _ => seq![t],
    }
}

/// All alternatives of an `Or` chain but the last.
pub open spec fn expr_alts(t: Term) -> Seq<Term>
    decreases t,
{
    match t {
        Term::Or(l, r) => seq![*l] + expr_alts(*r),
        _ => seq![],
    }
}

/// The last alternative of an `Or` chain.
pub open spec fn last_branch(t: Term) -> Term
    decreases t,
{
    match t {
        Term::Or(l, r) => last_branch(*r),
        _ => t,
    }
}

proof fn lemma_fold_branch(t: Term)
    requires
        well_formed(t),
    ensures
        fold_seq_spec(branch_items(t)) == Ok::<Term, ParseError>(t),
{
}

proof fn lemma_fold_expr(t: Term)
    requires
        well_formed(t),
    ensures
        fold_seq_spec(branch_items(last_branch(t))) == Ok::<Term, ParseError>(last_branch(t)),
        or_chain(expr_alts(t).push(last_branch(t))) == t,
    decreases t,
{
    match t {
        Term::Or(l, r) => {
            lemma_fold_expr(*r);
            let xs = expr_alts(t).push(last_branch(t));
            assert(xs.drop_first() =~= expr_alts(*r).push(last_branch(*r)));
        },
        _ => {
            lemma_fold_branch(t);
        },
    }
}

/// The state after reading the canonical text of `t` at `level` from `st`.
pub open spec fn printed_end(t: Term, level: int, st: Scan) -> Scan {
    if level >= 2 {
        Scan { seq: st.seq.push(t), ..st }
    } else if level == 1 {
        Scan { seq: st.seq + branch_items(t), ..st }
    } else {
        Scan { seq: branch_items(last_branch(t)), alts: st.alts + expr_alts(t), ..st }
    }
}

proof fn lemma_run_print(t: Term, level: int, st: Scan, pos: int)
    requires
        well_formed(t),
        !st.escape,
        0 <= level <= 2,
        level == 0 ==> st.seq.len() == 0,
    ensures
        run(st, print(t, level), pos) == Ok::<Scan, ParseError>(printed_end(t, level, st)),
    decreases t, level, 1int,
{
    let end = printed_end(t, level, st);
    match t {
        Term::Char(c) => {
            lemma_run_push(st, seq![], c, pos);
            if escapable(c) {
                lemma_run_push(st, seq![], '\\', pos);
                lemma_run_push(st, seq!['\\'], c, pos);
                assert(seq![].push('\\') =~= seq!['\\']);
                assert(seq!['\\'].push(c) =~= seq!['\\', c]);
            } else {
                assert(seq![].push(c) =~= seq![c]);
            }
            assert(end.seq =~= st.seq.push(t));
            assert(end.alts =~= st.alts);
        },
        Term::Plus(x) => {
            lemma_run_print(*x, 2, st, pos);
            lemma_run_push(st, print(*x, 2), '+', pos);
            assert(st.seq.push(*x).drop_last() =~= st.seq);
            assert(end.seq =~= st.seq.push(t));
            assert(end.alts =~= st.alts);
        },
        Term::Star(x) => {
            lemma_run_print(*x, 2, st, pos);
            lemma_run_push(st, print(*x, 2), '*', pos);
            assert(st.seq.push(*x).drop_last() =~= st.seq);
            assert(end.seq =~= st.seq.push(t));
            assert(end.alts =~= st.alts);
        },
        Term::Question(x) => {
            lemma_run_print(*x, 2, st, pos);
            lemma_run_push(st, print(*x, 2), '?', pos);
            assert(st.seq.push(*x).drop_last() =~= st.seq);
            assert(end.seq =~= st.seq.push(t));
            assert(end.alts =~= st.alts);
        },
        Term::Or(l, r) => {
            if level == 0 {
                lemma_run_print(*l, 1, st, pos);
                let a = print(*l, 1);
                lemma_run_push(st, a, '|', pos);
                let mid = printed_end(*l, 1, st);
                assert(mid.seq =~= branch_items(*l));
                lemma_fold_branch(*l);
                let st1 = Scan { seq: seq![], alts: st.alts.push(*l), ..st };
                lemma_run_print(*r, 0, st1, pos + a.len() + 1);
                lemma_run_append(st, a.push('|'), print(*r, 0), pos);
                assert(st1.alts + expr_alts(*r) =~= st.alts + expr_alts(t));
            } else {
                lemma_parens(t, 0, st, pos);
                assert(printed_end(t, level, st).seq =~= st.seq.push(t));
            }
        },
        Term::Sequence(xs) => {
            if level <= 1 {
                lemma_run_parts(xs, st, pos);
                assert(end.seq =~= st.seq + xs);
                assert(end.alts =~= st.alts);
            } else {
                lemma_parens(t, 1, st, pos);
                assert(printed_end(t, level, st).seq =~= st.seq.push(t));
            }
        },
    }
}

/// Reading a group: `t` printed at `inner` level, in parentheses.
proof fn lemma_parens(t: Term, inner: int, st: Scan, pos: int)
    requires
        well_formed(t),
        !st.escape,
        inner == 0 && t is Or || inner == 1 && t is Sequence,
        print(t, 2) == seq!['('] + print(t, inner) + seq![')'],
    ensures
        run(st, print(t, 2), pos) == Ok::<Scan, ParseError>(Scan { seq: st.seq.push(t), ..st }),
    decreases t, inner, 2int,
{
    let st1 = Scan {
        seq: seq![],
        alts: seq![],
        stack: st.stack.push(Frame { seq: st.seq, alts: st.alts }),
        escape: false,
    };
    lemma_run_push(st, seq![], '(', pos);
    assert(seq![].push('(') =~= seq!['(']);
    lemma_run_print(t, inner, st1, pos + 1);
    let body = print(t, inner);
    lemma_run_append(st, seq!['('], body, pos);
    lemma_run_push(st, seq!['('] + body, ')', pos);
    assert((seq!['('] + body).push(')') =~= seq!['('] + body + seq![')']);
    let st2 = printed_end(t, inner, st1);
    lemma_fold_expr(t);
    if inner == 1 {
        assert(st2.seq =~= branch_items(t));
        assert(st2.alts.push(t) =~= seq![t]);
    } else {
        assert(st2.alts =~= expr_alts(t));
    }
    assert(st2.stack.drop_last() =~= st.stack);
}

proof fn lemma_run_parts(xs: Seq<Term>, st: Scan, pos: int)
    requires
        parts_well_formed(xs),
        !st.escape,
    ensures
        run(st, print_parts(xs), pos) == Ok::<Scan, ParseError>(Scan { seq: st.seq + xs, ..st }),
    decreases xs, 3int, 0int,
{
    if xs.len() == 0 {
        assert(st.seq + xs =~= st.seq);
    } else {
        lemma_run_print(xs[0], 2, st, pos);
        let st1 = Scan { seq: st.seq.push(xs[0]), ..st };
        let a = print(xs[0], 2);
        let rest = xs.drop_first();
        lemma_run_parts(rest, st1, pos + a.len());
        lemma_run_append(st, a, print_parts(rest), pos);
        assert(st1.seq + rest =~= st.seq + xs);
    }
}

/// The canonical text of every well-formed tree parses back to that tree.
pub proof fn lemma_print_parse(t: Term)
    requires
        well_formed(t),
    ensures
        parse_spec(print(t, 0)) == Ok::<Term, ParseError>(t),
{
    lemma_run_print(t, 0, scan_start(), 0);
    lemma_fold_expr(t);
    assert(scan_start().alts + expr_alts(t) =~= expr_alts(t));
}



/// Every tree held in a parser state is well formed.
pub open spec fn scan_well_formed(st: Scan) -> bool {
    &&& parts_well_formed(st.seq)
    &&& parts_well_formed(st.alts)
    &&& forall|i: int|
        0 <= i < st.stack.len() ==> parts_well_formed(#[trigger] st.stack[i].seq)
            && parts_well_formed(st.stack[i].alts)
}

proof fn lemma_parts_push(xs: Seq<Term>, x: Term)
    requires
        parts_well_formed(xs),
        well_formed(x),
    ensures
        parts_well_formed(xs.push(x)),
    decreases xs.len(),
{
    if xs.len() > 0 {
        lemma_parts_push(xs.drop_first(), x);
        assert(xs.push(x).drop_first() =~= xs.drop_first().push(x));
    } else {
        assert(xs.push(x).drop_first() =~= xs);
    }
}

proof fn lemma_parts_drop_last(xs: Seq<Term>)
    requires
        parts_well_formed(xs),
        xs.len() > 0,
    ensures
        parts_well_formed(xs.drop_last()),
        well_formed(xs.last()),
    decreases xs.len(),
{
    if xs.len() > 1 {
        lemma_parts_drop_last(xs.drop_first());
        assert(xs.drop_last().drop_first() =~= xs.drop_first().drop_last());
    }
}

proof fn lemma_or_chain_well_formed(xs: Seq<Term>)
    requires
        parts_well_formed(xs),
        xs.len() > 0,
    ensures
        well_formed(or_chain(xs)),
    decreases xs.len(),
{
    if xs.len() > 1 {
        lemma_or_chain_well_formed(xs.drop_first());
    }
}

proof fn lemma_step_well_formed(st: Scan, pos: int, c: char)
    requires
        scan_well_formed(st),
        step(st, pos, c) is Ok,
    ensures
        scan_well_formed(step(st, pos, c)->Ok_0),
{
    let next = step(st, pos, c)->Ok_0;
    if st.escape || !(c == '\\' || c == '(' || c == ')' || c == '|' || is_quantifier(c)) {
        lemma_parts_push(st.seq, Term::Char(c));
    } else if c == '(' {
        assert(parts_well_formed(next.seq));
        assert(parts_well_formed(next.alts));
    } else if c == ')' {
        let g = fold_seq_spec(st.seq)->Ok_0;
        let top = st.stack.last();
        assert(parts_well_formed(top.seq) && parts_well_formed(top.alts));
        lemma_parts_push(st.alts, g);
        lemma_or_chain_well_formed(st.alts.push(g));
        lemma_parts_push(top.seq, or_chain(st.alts.push(g)));
        assert forall|i: int| 0 <= i < next.stack.len() implies parts_well_formed(
            #[trigger] next.stack[i].seq,
        ) && parts_well_formed(next.stack[i].alts) by {
            assert(next.stack[i] == st.stack[i]);
        }
    } else if c == '|' {
        lemma_parts_push(st.alts, fold_seq_spec(st.seq)->Ok_0);
        assert(parts_well_formed(next.seq));
    } else if is_quantifier(c) {
        lemma_parts_drop_last(st.seq);
        lemma_parts_push(st.seq.drop_last(), quantify(c, st.seq.last()));
    }
}

proof fn lemma_run_well_formed(st: Scan, s: Seq<char>, pos: int)
    requires
        scan_well_formed(st),
        run(st, s, pos) is Ok,
    ensures
        scan_well_formed(run(st, s, pos)->Ok_0),
    decreases s.len(),
{
    if s.len() > 0 {
        lemma_run_well_formed(st, s.drop_last(), pos);
        lemma_step_well_formed(run(st, s.drop_last(), pos)->Ok_0, pos + s.len() - 1, s.last());
    }
}

/// Every tree that a parse yields is well formed.
pub proof fn lemma_parse_well_formed(s: Seq<char>, t: Term)
    requires
        parse_spec(s) == Ok::<Term, ParseError>(t),
    ensures
        well_formed(t),
{
    assert(scan_well_formed(scan_start()));
    lemma_run_well_formed(scan_start(), s, 0);
    let st = run(scan_start(), s, 0)->Ok_0;
    let g = fold_seq_spec(st.seq)->Ok_0;
    lemma_parts_push(st.alts, g);
    lemma_or_chain_well_formed(st.alts.push(g));
}

/// Printing a parsed tree canonically and parsing the text again gives the
/// same tree back.
pub proof fn lemma_round_trip(s: Seq<char>, t: Term)
    requires
        parse_spec(s) == Ok::<Term, ParseError>(t),
    ensures
        parse_spec(print(t, 0)) == Ok::<Term, ParseError>(t),
{
    lemma_parse_well_formed(s, t);
    lemma_print_parse(t);
}


proof fn lemma_print_parts_push(xs: Seq<Term>, x: Term)
    ensures
        print_parts(xs.push(x)) == print_parts(xs) + print(x, 2),
    decreases xs.len(),
{
    if xs.len() == 0 {
        assert(xs.push(x).drop_first() =~= xs);
        assert(print(x, 2) + seq![] =~= print(x, 2));
        assert(seq![] + print(x, 2) =~= print(x, 2));
    } else {
        lemma_print_parts_push(xs.drop_first(), x);
        assert(xs.push(x).drop_first() =~= xs.drop_first().push(x));
        assert(print(xs[0], 2) + (print_parts(xs.drop_first()) + print(x, 2)) =~= (print(xs[0], 2)
            + print_parts(xs.drop_first())) + print(x, 2));
    }
}

/// Appends the canonical text of `ast` at `level` to `out`.
fn print_into(ast: &AST, level: u8, out: &mut Vec<char>)
    requires
        level <= 2,
    ensures
        final(out)@ == old(out)@ + print(ast@, level as int),
    decreases ast,
{
    match ast {
        AST::Char(c) => {
            if *c == '\\' || *c == '(' || *c == ')' || *c == '|' || *c == '+' || *c == '*' || *c
                == '_' {
                out.push('\\');
            }
            out.push(*c);
            assert(final(out)@ =~= old(out)@ + print(ast@, level as int));
        },
        AST::Plus(x) => {
            print_into(x, 2, out);
            out.push('+');
            assert(final(out)@ =~= old(out)@ + print(ast@, level as int));
        },
        AST::Star(x) => {
            print_into(x, 2, out);
            out.push('*');
            assert(final(out)@ =~= old(out)@ + print(ast@, level as int));
        },
        AST::Question(x) => {
            print_into(x, 2, out);
            out.push('?');
            assert(final(out)@ =~= old(out)@ + print(ast@, level as int));
        },
        AST::Or(l, r) => {
            if level > 0 {
                out.push('(');
            }
            print_into(l, 1, out);
            out.push('|');
            print_into(r, 0, out);
            if level > 0 {
                out.push(')');
            }
            assert(print(ast@, 0) == print(l@, 1).push('|') + print(r@, 0));
            assert(final(out)@ =~= old(out)@ + print(ast@, level as int));
        },
        AST::Sequence(v) => {
            if level > 1 {
                out.push('(');
            }
            let ghost start = out@;
            let ghost xs = views(v@);
            assert(ast@ == Term::Sequence(xs)) by {
                assert(xs =~= match ast@ { Term::Sequence(ys) => ys, _ => seq![] });
            }
            let mut k: usize = 0;
            assert(xs.take(0) =~= seq![]);
            while k < v.len()
                invariant
                    k <= v.len(),
                    *ast == AST::Sequence(*v),
                    xs == views(v@),
                    out@ == start + print_parts(xs.take(k as int)),
                decreases v.len() - k,
            {
                proof {
                    assert(decreases_to!(v => v[k as int]));
                    assert(decreases_to!(*ast => ast->Sequence_0));
                }
                print_into(&v[k], 2, out);
                proof {
                    assert(xs.take(k + 1) =~= xs.take(k as int).push(xs[k as int]));
                    lemma_print_parts_push(xs.take(k as int), xs[k as int]);
                }
                k = k + 1;
            }
            assert(xs.take(k as int) =~= xs);
            if level > 1 {
                out.push(')');
            }
            assert(final(out)@ =~= old(out)@ + print(ast@, level as int));
        },
    }
}

impl AST {
    /// The canonical text of the tree, which parses back to the same tree.
    pub fn to_pattern(&self) -> (r: Vec<char>)
        ensures
            r@ == print(self@, 0),
    {
        let mut out: Vec<char> = Vec::new();
        print_into(self, 0, &mut out);
        assert(out@ =~= print(self@, 0));
        out
    }
}

} // verus!
