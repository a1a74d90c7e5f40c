//! Scanning a stream of characters for the next occurrence of a segment's
//! literal.

use vstd::prelude::*;
use crate::automaton::{
    Expr,
    ends_at,
    lemma_ends_at_overlap,
    lemma_overlap_chain,
    lemma_overlap_step,
    overlaps,
};
use crate::text::push_char;

verus! {

/// The text captured before a literal that closes `buf`: everything but the
/// literal's own characters.
pub open spec fn captured(lit: Seq<char>, buf: Seq<char>) -> Seq<char> {
    buf.subrange(0, buf.len() - lit.len())
}

/// The first position `e >= m` of `s` at which an occurrence of `lit` ends.
pub open spec fn find_from(lit: Seq<char>, s: Seq<char>, m: int) -> Option<int>
    decreases s.len() + 1 - m,
{
    if m < 0 || m > s.len() {
        None
    } else if ends_at(lit, s, m) {
        Some(m)
    } else {
        find_from(lit, s, m + 1)
    }
}

/// The end of the first occurrence of `lit` in `s`.
pub open spec fn first_end(lit: Seq<char>, s: Seq<char>) -> Option<int> {
    find_from(lit, s, 0)
}

/// The non-empty literal `lit` closes the buffer `b`.
pub open spec fn is_found(lit: Seq<char>, b: Seq<char>) -> bool {
    lit.len() > 0 && ends_at(lit, b, b.len() as int)
}

/// The buffer after feeding `c`: unchanged once the literal is found.
pub open spec fn feed_buffer(lit: Seq<char>, b: Seq<char>, c: char) -> Seq<char> {
    if is_found(lit, b) {
        b
    } else {
        b.push(c)
    }
}

/// The buffer after feeding each character of `input`, in order, to a matcher
/// for `lit` whose buffer was empty.
pub open spec fn replay(lit: Seq<char>, input: Seq<char>) -> Seq<char>
    decreases input.len(),
{
    if input.len() == 0 {
        Seq::empty()
    } else {
        feed_buffer(lit, replay(lit, input.drop_last()), input.last())
    }
}

/// Searching `s` and `s` followed by one more character agree up to the end of
/// `s`; past it only the new last position remains.
proof fn lemma_find_extend(lit: Seq<char>, s: Seq<char>, c: char, m: int)
    requires
        lit.len() > 0,
        0 <= m <= s.len() + 1,
    ensures
        ({
            let t = s.push(c);
            match find_from(lit, s, m) {
                Some(e) => find_from(lit, t, m) == Some(e),
                None => find_from(lit, t, m) == if ends_at(lit, t, t.len() as int) {
                    Some(t.len() as int)
                } else {
                    None
                },
            }
        }),
    decreases s.len() + 1 - m,
{
    let t = s.push(c);
    if m <= s.len() {
        if lit.len() <= m {
            assert(t.subrange(m - lit.len(), m) =~= s.subrange(m - lit.len(), m));
        }
        assert(ends_at(lit, t, m) == ends_at(lit, s, m));
        lemma_find_extend(lit, s, c, m + 1);
    } else {
        assert(find_from(lit, t, m + 1) == None::<int>);
    }
}

/// Feeding `input` to a matcher whose buffer is empty (a new one, or one just
/// reset) stops at the first occurrence of the literal in `input`, and the text
/// before that occurrence is what it captures: the outcome depends on the
/// literal and the input alone, so a reset matcher fed the same input again
/// reaches the same match point with the same captured value.
pub proof fn lemma_replay(lit: Seq<char>, input: Seq<char>)
    requires
        lit.len() > 0,
    ensures
        match first_end(lit, input) {
            Some(e) => {
                &&& lit.len() <= e <= input.len()
                &&& replay(lit, input) == input.subrange(0, e)
                &&& is_found(lit, replay(lit, input))
                &&& captured(lit, replay(lit, input)) == input.subrange(0, e - lit.len())
            },
            None => replay(lit, input) == input && !is_found(lit, input),
        },
    decreases input.len(),
{
    if input.len() == 0 {
        assert(find_from(lit, input, 1) == None::<int>);
        assert(input =~= Seq::<char>::empty());
    } else {
        let s = input.drop_last();
        let c = input.last();
        assert(s.push(c) =~= input);
        lemma_replay(lit, s);
        lemma_find_extend(lit, s, c, 0);
        match first_end(lit, s) {
            Some(e) => {
                assert(input.subrange(0, e) =~= s.subrange(0, e));
                assert(input.subrange(0, e - lit.len()) =~= s.subrange(0, e - lit.len()));
            },
            None => {
                assert(input.subrange(0, input.len() as int) =~= input);
                if ends_at(lit, input, input.len() as int) {
                    assert(captured(lit, input) =~= input.subrange(0, input.len() - lit.len()));
                }
            },
        }
    }
}

/// The first occurrence of a non-empty literal in itself ends at its last
/// character: fed its own characters, a matcher finds it exactly when the last
/// one comes, and captures nothing.
pub proof fn lemma_literal_matches_itself(lit: Seq<char>)
    requires
        lit.len() > 0,
    ensures
        first_end(lit, lit) == Some(lit.len() as int),
        replay(lit, lit) == lit,
        is_found(lit, lit),
        forall|j: int| 0 <= j < lit.len() ==> !#[trigger] is_found(lit, lit.subrange(0, j)),
        captured(lit, replay(lit, lit)) == Seq::<char>::empty(),
{
    lemma_no_end_before(lit, lit, 0);
    assert(lit.subrange(0, lit.len() as int) =~= lit);
    lemma_replay(lit, lit);
    assert(captured(lit, lit) =~= Seq::<char>::empty());
}

/// No occurrence of `lit` ends before position `lit.len()`.
proof fn lemma_no_end_before(lit: Seq<char>, s: Seq<char>, m: int)
    requires
        0 <= m <= lit.len() <= s.len(),
    ensures
        find_from(lit, s, m) == find_from(lit, s, lit.len() as int),
    decreases lit.len() - m,
{
    if m < lit.len() {
        lemma_no_end_before(lit, s, m + 1);
    }
}

/// The scan state of one segment over one line.
pub struct Matcher<'a> {
    expr: &'a Expr,
    /// The length of the longest suffix of `buf` that is a prefix of the literal.
    y: usize,
    buf: Vec<char>,
}

impl<'a> Matcher<'a> {
    /// The literal being looked for.
    pub closed spec fn literal(&self) -> Seq<char> {
        self.expr.literal()
    }

    /// The capture name of the segment.
    pub closed spec fn name(&self) -> Seq<char> {
        self.expr.name()
    }

    /// All characters consumed since the matcher was created or reset.
    pub closed spec fn buffer(&self) -> Seq<char> {
        self.buf@
    }

    /// The cursor is the longest suffix of the buffer that is a prefix of the
    /// literal.
    pub closed spec fn wf(&self) -> bool {
        &&& self.expr.wf()
        &&& self.y <= self.literal().len()
        &&& overlaps(self.buf@, self.literal(), self.y as int)
        &&& forall|k: int|
            self.y < k <= self.literal().len() ==> !#[trigger] overlaps(
                self.buf@,
                self.literal(),
                k,
            )
    }

    /// The buffer ends with the (non-empty) literal.
    pub open spec fn matched(&self) -> bool {
        is_found(self.literal(), self.buffer())
    }

    /// A matcher for `expr` that has consumed nothing.
    pub fn new(expr: &'a Expr) -> (m: Matcher<'a>)
        requires
            expr.wf(),
        ensures
            m.wf(),
            m.literal() == expr.literal(),
            m.name() == expr.name(),
            m.buffer() == Seq::<char>::empty(),
    {
        let m = Matcher { expr, y: 0, buf: Vec::new() };
        assert(overlaps(m.buf@, m.literal(), 0)) by {
            assert(m.buf@.subrange(0, 0) =~= m.literal().subrange(0, 0));
        }
        m
    }

    /// Forgets all consumed characters: the matcher is as `new` made it.
    pub fn reset(&mut self)
        requires
            old(self).wf(),
        ensures
            final(self).wf(),
            final(self).literal() == old(self).literal(),
            final(self).name() == old(self).name(),
            final(self).buffer() == Seq::<char>::empty(),
    {
        self.y = 0;
        self.buf = Vec::new();
        assert(overlaps(self.buf@, self.literal(), 0)) by {
            assert(self.buf@.subrange(0, 0) =~= self.literal().subrange(0, 0));
        }
    }

    /// Whether the literal has been found.
    pub fn is_matched(&self) -> (r: bool)
        requires
            self.wf(),
        ensures
            r == self.matched(),
    {
        proof {
            lemma_ends_at_overlap(self.literal(), self.buf@);
        }
        self.y > 0 && self.y == self.expr.literal_len()
    }

    /// Consumes `c`, unless the literal was already found. Returns the captured
    /// text once the literal is found.
    pub fn feed(&mut self, c: char) -> (r: Option<String>)
        requires
            old(self).wf(),
        ensures
            final(self).wf(),
            final(self).literal() == old(self).literal(),
            final(self).name() == old(self).name(),
            final(self).buffer() == feed_buffer(old(self).literal(), old(self).buffer(), c),
            old(self).matched() ==> {
                &&& final(self).buffer() == old(self).buffer()
                &&& r is Some
                &&& r->0@ == captured(old(self).literal(), old(self).buffer())
            },
            !old(self).matched() ==> {
                &&& final(self).buffer() == old(self).buffer().push(c)
                &&& (r is Some <==> final(self).matched())
                &&& (r is Some ==> r->0@ == captured(final(self).literal(), final(self).buffer()))
            },
    {
        if self.is_matched() {
            return Some(self.value());
        }
        let ghost lit = self.literal();
        let ghost b = self.buf@;
        let n = self.expr.literal_len();
        self.buf.push(c);
        let ghost b2 = self.buf@;
        assert(b2 == b.push(c));
        if n == 0 {
            assert(overlaps(b2, lit, 0)) by {
                assert(b2.subrange(b2.len() as int, b2.len() as int) =~= lit.subrange(0, 0));
            }
            return None;
        }
        proof {
            lemma_ends_at_overlap(lit, b);
        }
        loop
            invariant_except_break
                self.y < n,
                overlaps(b, lit, self.y as int),
                forall|j: int| self.y < j < n && overlaps(b, lit, j) ==> lit[j] != c,
            invariant
                self.buf@ == b2,
                b2 == b.push(c),
                self.literal() == lit,
                lit.len() == n,
                n > 0,
                self.expr.wf(),
                self.name() == old(self).name(),
            ensures
                self.y <= n,
                overlaps(b2, lit, self.y as int),
                forall|k: int| self.y < k <= n ==> !#[trigger] overlaps(b2, lit, k),
            decreases self.y,
        {
            let yi = self.y;
            let (target, fallback) = self.expr.state(yi);
            if target == c {
                self.y = yi + 1;
                proof {
                    lemma_overlap_step(b, lit, c, yi as int);
                    assert forall|k: int| yi + 1 < k <= n implies !#[trigger] overlaps(
                        b2,
                        lit,
                        k,
                    ) by {
                        lemma_overlap_step(b, lit, c, k - 1);
                    }
                }
                break ;
            }
            if yi == 0 {
                proof {
                    assert(overlaps(b2, lit, 0)) by {
                        assert(b2.subrange(b2.len() as int, b2.len() as int) =~= lit.subrange(
                            0,
                            0,
                        ));
                    }
                    assert forall|k: int| 0 < k <= n implies !#[trigger] overlaps(b2, lit, k) by {
                        lemma_overlap_step(b, lit, c, k - 1);
                    }
                }
                break ;
            }
            proof {
                assert forall|j: int| fallback < j < n && overlaps(b, lit, j) implies lit[j] != c by {
                    if j < yi {
                        lemma_overlap_chain(b, lit, yi as int, j);
                    }
                }
                lemma_overlap_chain(b, lit, yi as int, fallback as int);
            }
            self.y = fallback;
        }
        proof {
            lemma_ends_at_overlap(lit, b2);
        }
        if self.is_matched() {
            Some(self.value())
        } else {
            None
        }
    }

    /// The text consumed before the literal's own characters.
    pub fn value(&self) -> (r: String)
        requires
            self.wf(),
            self.buffer().len() >= self.literal().len(),
        ensures
            r@ == captured(self.literal(), self.buffer()),
    {
        let len = self.buf.len() - self.expr.literal_len();
        let mut result = String::new();
        let mut i: usize = 0;
        while i < len
            invariant
                len <= self.buf@.len(),
                len == self.buf@.len() - self.literal().len(),
                i <= len,
                result@ == self.buf@.subrange(0, i as int),
            decreases len - i,
        {
            push_char(&mut result, self.buf[i]);
            i += 1;
        }
        result
    }
}

impl Expr {
    /// A fresh matcher for this segment.
    pub fn get_matcher(&self) -> (m: Matcher)
        requires
            self.wf(),
        ensures
            m.wf(),
            m.literal() == self.literal(),
            m.name() == self.name(),
            m.buffer() == Seq::<char>::empty(),
    {
        Matcher::new(self)
    }
}

} // verus!
