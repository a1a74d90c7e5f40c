//! Compiled segments: a capture name and the literal that closes it, with the
//! literal's failure table (the prefix function).

use vstd::prelude::*;
use crate::text::push_char;

verus! {

/// The last `k` characters of `s` are the first `k` characters of `p`.
pub open spec fn overlaps(s: Seq<char>, p: Seq<char>, k: int) -> bool {
    &&& 0 <= k <= s.len()
    &&& k <= p.len()
    &&& s.subrange(s.len() - k, s.len() as int) == p.subrange(0, k)
}

/// `k` is the length of a proper border of `q`: a prefix of `q`, shorter than
/// `q`, that is also a suffix of it.
pub open spec fn is_border(q: Seq<char>, k: int) -> bool {
    k < q.len() && overlaps(q, q, k)
}

/// `f` is the length of the longest proper border of `q` (zero for an empty `q`).
pub open spec fn is_fallback(q: Seq<char>, f: int) -> bool {
    if q.len() == 0 {
        f == 0
    } else {
        &&& is_border(q, f)
        &&& forall|k: int| f < k < q.len() ==> !#[trigger] is_border(q, k)
    }
}

/// An occurrence of `lit` in `s` ends at position `m`.
pub open spec fn ends_at(lit: Seq<char>, s: Seq<char>, m: int) -> bool {
    &&& lit.len() <= m <= s.len()
    &&& s.subrange(m - lit.len(), m) == lit
}

/// Appending `c` to `s` extends an overlap of length `k` by one exactly when
/// `c` is the next character of `p`.
pub proof fn lemma_overlap_step(s: Seq<char>, p: Seq<char>, c: char, k: int)
    requires
        0 <= k,
    ensures
        overlaps(s.push(c), p, k + 1) <==> (overlaps(s, p, k) && k < p.len() && p[k] == c),
{
    let t = s.push(c);
    if overlaps(t, p, k + 1) {
        assert(s.subrange(s.len() - k, s.len() as int) =~= t.subrange(
            t.len() - (k + 1),
            t.len() as int,
        ).subrange(0, k));
        assert(p.subrange(0, k) =~= p.subrange(0, k + 1).subrange(0, k));
        assert(t.subrange(t.len() - (k + 1), t.len() as int)[k] == c);
        assert(p.subrange(0, k + 1)[k] == p[k]);
    }
    if overlaps(s, p, k) && k < p.len() && p[k] == c {
        assert(t.subrange(t.len() - (k + 1), t.len() as int) =~= p.subrange(0, k + 1));
    }
}

/// Below an overlap `y` of `s` with `p`, the shorter overlaps are exactly the
/// proper borders of the first `y` characters of `p`.
pub proof fn lemma_overlap_chain(s: Seq<char>, p: Seq<char>, y: int, j: int)
    requires
        overlaps(s, p, y),
        0 <= j < y,
    ensures
        overlaps(s, p, j) <==> is_border(p.subrange(0, y), j),
{
    let q = p.subrange(0, y);
    assert(s.subrange(s.len() - j, s.len() as int) =~= q.subrange(y - j, y));
    assert(p.subrange(0, j) =~= q.subrange(0, j));
}

/// An overlap is a property of the first `k` characters of `p` only.
pub proof fn lemma_overlap_prefix(s: Seq<char>, p: Seq<char>, q: Seq<char>, k: int)
    requires
        0 <= k <= p.len(),
        k <= q.len(),
        p.subrange(0, k) == q.subrange(0, k),
    ensures
        overlaps(s, p, k) <==> overlaps(s, q, k),
{
}

/// An occurrence of `lit` ending at the end of `s` is an overlap of full length.
pub proof fn lemma_ends_at_overlap(lit: Seq<char>, s: Seq<char>)
    ensures
        ends_at(lit, s, s.len() as int) <==> overlaps(s, lit, lit.len() as int),
{
    assert(lit.subrange(0, lit.len() as int) =~= lit);
}

/// The borders of `lit` followed by `c`, of length `k > 0`, come from borders
/// of `lit` of length `k - 1` followed by `c`.
proof fn lemma_extend_border(lit: Seq<char>, c: char, k: int)
    requires
        1 <= k <= lit.len(),
    ensures
        overlaps(lit.push(c), lit.push(c), k) <==> (overlaps(lit, lit, k - 1) && lit[k - 1] == c),
{
    let l2 = lit.push(c);
    lemma_overlap_step(lit, l2, c, k - 1);
    assert(l2.subrange(0, k - 1) =~= lit.subrange(0, k - 1));
    lemma_overlap_prefix(lit, lit, l2, k - 1);
}

/// One position of a literal's automaton.
pub struct StatePoint {
    /// The literal's character at this position.
    pub target: char,
    /// The length of the longest proper border of the literal's characters
    /// before this position.
    pub same_pre_index: usize,
}

/// A compiled segment: a capture name and the literal that ends the capture.
pub struct Expr {
    name: String,
    states: Vec<StatePoint>,
    /// The length of the longest proper border of the whole literal so far.
    x: usize,
}

impl Expr {
    /// The segment's literal.
    pub closed spec fn literal(&self) -> Seq<char> {
        self.states@.map_values(|p: StatePoint| p.target)
    }

    /// The segment's capture name (empty: the text is discarded).
    pub closed spec fn name(&self) -> Seq<char> {
        self.name@
    }

    /// The failure table of the literal is the prefix function of it.
    pub closed spec fn wf(&self) -> bool {
        &&& is_fallback(self.literal(), self.x as int)
        &&& forall|i: int|
            0 <= i < self.states@.len() ==> is_fallback(
                self.literal().subrange(0, i),
                #[trigger] self.states@[i].same_pre_index as int,
            )
    }

    /// The state at position `i`: its character and its fallback.
    pub(crate) fn state(&self, i: usize) -> (r: (char, usize))
        requires
            self.wf(),
            i < self.literal().len(),
        ensures
            r.0 == self.literal()[i as int],
            is_fallback(self.literal().subrange(0, i as int), r.1 as int),
    {
        let p = &self.states[i];
        (p.target, p.same_pre_index)
    }

    /// The capture name.
    pub fn name_str(&self) -> (r: &str)
        ensures
            r@ == self.name(),
    {
        self.name.as_str()
    }

    /// The literal, as a string.
    pub fn _flag(&self) -> (r: String)
        ensures
            r@ == self.literal(),
    {
        let mut flag = String::new();
        let mut i: usize = 0;
        while i < self.states.len()
            invariant
                i <= self.states@.len(),
                flag@ == self.literal().subrange(0, i as int),
            decreases self.states@.len() - i,
        {
            push_char(&mut flag, self.states[i].target);
            assert(flag@ =~= self.literal().subrange(0, i + 1));
            i += 1;
        }
        assert(flag@ =~= self.literal());
        flag
    }

    /// The number of characters of the literal.
    pub fn literal_len(&self) -> (r: usize)
        ensures
            r == self.literal().len(),
    {
        self.states.len()
    }

    /// A segment with an empty name and an empty literal.
    pub fn new() -> (e: Expr)
        ensures
            e.wf(),
            e.literal() == Seq::<char>::empty(),
            e.name() == Seq::<char>::empty(),
    {
        let e = Expr { name: String::new(), states: Vec::new(), x: 0 };
        assert(e.literal() =~= Seq::<char>::empty());
        e
    }

    /// Appends `c` to the literal and extends its failure table.
    pub fn append_flag(&mut self, c: char)
        requires
            old(self).wf(),
            old(self).literal().len() < usize::MAX,
        ensures
            final(self).wf(),
            final(self).literal() == old(self).literal().push(c),
            final(self).name() == old(self).name(),
    {
        let ghost lit = self.literal();
        let n = self.states.len();
        let state_point = StatePoint { target: c, same_pre_index: self.x };
        self.states.push(state_point);
        let ghost lit2 = self.literal();
        assert(lit2 =~= lit.push(c));
        assert forall|i: int| 0 <= i < self.states@.len() implies is_fallback(
            lit2.subrange(0, i),
            #[trigger] self.states@[i].same_pre_index as int,
        ) by {
            assert(lit2.subrange(0, i) =~= lit.subrange(0, i));
            if i == n {
                assert(lit.subrange(0, i) =~= lit);
            }
        }
        if n == 0 {
            self.x = 0;
            assert(overlaps(lit2, lit2, 0)) by {
                assert(lit2.subrange(1, 1) =~= lit2.subrange(0, 0));
            }
            return;
        }
        assert forall|j: int| self.x < j < n && overlaps(lit, lit, j) implies lit[j] != c by {
            assert(!is_border(lit, j));
        }
        loop
            invariant_except_break
                self.x < n,
                overlaps(lit, lit, self.x as int),
                forall|j: int| self.x < j < n && overlaps(lit, lit, j) ==> lit[j] != c,
            invariant
                self.states@.len() == n + 1,
                self.literal() == lit2,
                lit2 == lit.push(c),
                n == lit.len(),
                n > 0,
                self.name() == old(self).name(),
                forall|i: int|
                    0 <= i < self.states@.len() ==> is_fallback(
                        lit2.subrange(0, i),
                        #[trigger] self.states@[i].same_pre_index as int,
                    ),
            ensures
                is_fallback(lit2, self.x as int),
            decreases self.x,
        {
            let xi = self.x;
            let p = &self.states[xi];
            assert(self.literal()[xi as int] == self.states@[xi as int].target);
            assert(p.target == lit[xi as int]);
            if p.target == c {
                self.x = xi + 1;
                proof {
                    lemma_extend_border(lit, c, xi + 1);
                    assert forall|k: int| xi + 1 < k < lit2.len() implies !#[trigger] is_border(
                        lit2,
                        k,
                    ) by {
                        lemma_extend_border(lit, c, k);
                    }
                }
                break ;
            }
            if xi == 0 {
                proof {
                    assert(overlaps(lit2, lit2, 0)) by {
                        assert(lit2.subrange(lit2.len() as int, lit2.len() as int)
                            =~= lit2.subrange(0, 0));
                    }
                    assert forall|k: int| 0 < k < lit2.len() implies !#[trigger] is_border(
                        lit2,
                        k,
                    ) by {
                        lemma_extend_border(lit, c, k);
                    }
                }
                break ;
            }
            let f = p.same_pre_index;
            proof {
                assert(lit2.subrange(0, xi as int) =~= lit.subrange(0, xi as int));
                assert forall|j: int| f < j < n && overlaps(lit, lit, j) implies lit[j] != c by {
                    if j < xi {
                        lemma_overlap_chain(lit, lit, xi as int, j);
                    }
                }
                lemma_overlap_chain(lit, lit, xi as int, f as int);
            }
            self.x = f;
        }
    }

    /// Appends `c` to the capture name.
    pub fn append_name(&mut self, c: char)
        requires
            old(self).wf(),
        ensures
            final(self).wf(),
            final(self).literal() == old(self).literal(),
            final(self).name() == old(self).name().push(c),
    {
        push_char(&mut self.name, c);
    }
}

} // verus!
