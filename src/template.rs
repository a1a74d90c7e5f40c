//! Compiling a template such as `[{ts}] level={level}` into its segments.

use vstd::prelude::*;
use crate::automaton::Expr;
use crate::text::chars_of;

verus! {

/// Why a template cannot be used.
#[derive(Debug, Clone, Copy, PartialEq, Eq, Structural)]
pub enum TemplateError {
    /// Two placeholders follow each other with no literal between them.
    ConsecutiveCaptures,
    /// The template ends inside a placeholder.
    UnterminatedName,
}

/// A segment as a (capture name, literal) pair.
pub type SegmentView = (Seq<char>, Seq<char>);

/// The compiler's state: finished segments, the current segment's name and
/// literal, and whether a name is being read.
pub type CompileState = (Seq<SegmentView>, Seq<char>, Seq<char>, bool);

/// The compiler's state after reading `c`.
pub open spec fn compile_step(st: Result<CompileState, TemplateError>, c: char) -> Result<
    CompileState,
    TemplateError,
> {
    match st {
        Err(e) => Err(e),
        Ok((segs, name, lit, in_name)) => {
            if in_name {
                if c == '}' {
                    Ok((segs, name, lit, false))
                } else {
                    Ok((segs, name.push(c), lit, true))
                }
            } else if c == '{' {
                if lit.len() > 0 || segs.len() == 0 {
                    Ok((segs.push((name, lit)), Seq::empty(), Seq::empty(), true))
                } else {
                    Err(TemplateError::ConsecutiveCaptures)
                }
            } else {
                Ok((segs, name, lit.push(c), false))
            }
        },
    }
}

/// The compiler's state after reading all of `t`.
pub open spec fn compile_scan(t: Seq<char>) -> Result<CompileState, TemplateError>
    decreases t.len(),
{
    if t.len() == 0 {
        Ok((Seq::empty(), Seq::empty(), Seq::empty(), false))
    } else {
        compile_step(compile_scan(t.drop_last()), t.last())
    }
}

/// The segments of template `t`: each literal of `t` with the name of the
/// placeholder before it (empty for the first), or why `t` is refused.
pub open spec fn compile(t: Seq<char>) -> Result<Seq<SegmentView>, TemplateError> {
    match compile_scan(t) {
        Err(e) => Err(e),
        Ok((segs, name, lit, in_name)) => {
            if in_name {
                Err(TemplateError::UnterminatedName)
            } else {
                Ok(segs.push((name, lit)))
            }
        },
    }
}

/// The (name, literal) view of each segment.
pub open spec fn segments_view(exprs: Seq<Expr>) -> Seq<SegmentView> {
    exprs.map_values(|e: Expr| (e.name(), e.literal()))
}

/// Every segment's automaton is well formed.
pub open spec fn all_wf(exprs: Seq<Expr>) -> bool {
    forall|i: int| 0 <= i < exprs.len() ==> (#[trigger] exprs[i]).wf()
}

/// Once the compiler has failed, reading more characters does not change
/// the error.
proof fn lemma_scan_err_sticks(t: Seq<char>, i: nat, k: nat)
    requires
        i <= k <= t.len(),
        compile_scan(t.take(i as int)) is Err,
    ensures
        compile_scan(t.take(k as int)) == compile_scan(t.take(i as int)),
    decreases k - i,
{
    if k > i {
        lemma_scan_err_sticks(t, i, (k - 1) as nat);
        assert(t.take(k as int).drop_last() =~= t.take(k - 1));
    }
}

/// Compiles `expr_str` into its segments, in order.
pub fn parse_expr(expr_str: &str) -> (r: Result<Vec<Expr>, TemplateError>)
    ensures
        match (r, compile(expr_str@)) {
            (Ok(v), Ok(segs)) => all_wf(v@) && segments_view(v@) == segs,
            (Err(e), Err(e2)) => e == e2,
            _ => false,
        },
{
    let t = chars_of(expr_str);
    let mut expr_list: Vec<Expr> = Vec::new();
    let mut expr = Expr::new();
    let mut in_name = false;
    let mut i: usize = 0;
    assert(t@.take(0) =~= Seq::<char>::empty());
    assert(segments_view(expr_list@) =~= Seq::<SegmentView>::empty());
    while i < t.len()
        invariant
            i <= t@.len(),
            t@ == expr_str@,
            expr.wf(),
            all_wf(expr_list@),
            expr.literal().len() <= i,
            compile_scan(t@.take(i as int)) == Ok::<CompileState, TemplateError>(
                (segments_view(expr_list@), expr.name(), expr.literal(), in_name),
            ),
        decreases t@.len() - i,
    {
        let c = t[i];
        proof {
            assert(t@.take(i + 1).drop_last() =~= t@.take(i as int));
            assert(t@.take(i + 1).last() == c);
        }
        if in_name {
            if c == '}' {
                in_name = false;
            } else {
                expr.append_name(c);
            }
        } else if c == '{' {
            if expr.literal_len() > 0 || expr_list.len() == 0 {
                let ghost before = expr_list@;
                let mut done = Expr::new();
                std::mem::swap(&mut expr, &mut done);
                expr_list.push(done);
                assert(segments_view(expr_list@) =~= segments_view(before).push(
                    (done.name(), done.literal()),
                ));
                in_name = true;
            } else {
                proof {
                    lemma_scan_err_sticks(t@, (i + 1) as nat, t@.len());
                    assert(t@.take(t@.len() as int) =~= t@);
                }
                return Err(TemplateError::ConsecutiveCaptures);
            }
        } else {
            expr.append_flag(c);
        }
        i += 1;
    }
    assert(t@.take(i as int) =~= t@);
    if in_name {
        return Err(TemplateError::UnterminatedName);
    }
    expr_list.push(expr);
    Ok(expr_list)
}

} // verus!
