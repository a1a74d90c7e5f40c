//! Running a compiled template over one line and formatting what it captured.

use vstd::prelude::*;
use vstd::string::StringExecFns;
use crate::automaton::{Expr, ends_at};
use crate::matcher::{captured, find_from, first_end};
use crate::template::{SegmentView, all_wf, segments_view};
use crate::text::{chars_of, push_char};

verus! {

/// The entry for a captured `value`: none where the name or the value is empty.
pub open spec fn record(name: Seq<char>, value: Seq<char>) -> Seq<SegmentView> {
    if name.len() > 0 && value.len() > 0 {
        seq![(name, value)]
    } else {
        Seq::empty()
    }
}

/// The captures of segments `k..` over `rest`, the part of the line that the
/// segments before `k` left. A non-empty literal ends at its first occurrence
/// and captures the text before it; an empty literal captures the rest of the
/// line where it closes the template, and nothing elsewhere. Once a literal is
/// not found, the later segments capture nothing.
pub open spec fn captures_from(segs: Seq<SegmentView>, k: int, rest: Seq<char>) -> Seq<
    SegmentView,
>
    decreases segs.len() - k,
{
    if k < 0 || k >= segs.len() {
        Seq::empty()
    } else {
        let name = segs[k].0;
        let lit = segs[k].1;
        if lit.len() == 0 {
            if k == segs.len() - 1 {
                record(name, rest)
            } else {
                captures_from(segs, k + 1, rest)
            }
        } else {
            match first_end(lit, rest) {
                None => Seq::empty(),
                Some(e) => record(name, rest.subrange(0, e - lit.len())) + captures_from(
                    segs,
                    k + 1,
                    rest.subrange(e, rest.len() as int),
                ),
            }
        }
    }
}

/// The (name, value) pairs that segments `segs` capture from `line`, in order.
pub open spec fn captures(segs: Seq<SegmentView>, line: Seq<char>) -> Seq<SegmentView> {
    captures_from(segs, 0, line)
}

/// The view of a list of (name, value) strings.
pub open spec fn pairs_view(v: Seq<(String, String)>) -> Seq<SegmentView> {
    v.map_values(|p: (String, String)| (p.0@, p.1@))
}

/// `"name":"value"`, with no escaping.
pub open spec fn field_text(name: Seq<char>, value: Seq<char>) -> Seq<char> {
    seq!['"'] + name + seq!['"', ':', '"'] + value + seq!['"']
}

/// The fields of `caps`, separated by commas.
pub open spec fn fields_text(caps: Seq<SegmentView>) -> Seq<char>
    decreases caps.len(),
{
    if caps.len() == 0 {
        Seq::empty()
    } else if caps.len() == 1 {
        field_text(caps[0].0, caps[0].1)
    } else {
        fields_text(caps.drop_last()) + seq![','] + field_text(caps.last().0, caps.last().1)
    }
}

/// The record for one line: `{"name1":"value1","name2":"value2"}`.
pub open spec fn record_text(caps: Seq<SegmentView>) -> Seq<char> {
    seq!['{'] + fields_text(caps) + seq!['}']
}

/// Writes `"name":"value"`.
pub fn format_field(name: &str, value: &str) -> (r: String)
    ensures
        r@ == field_text(name@, value@),
{
    let mut r = String::new();
    push_char(&mut r, '"');
    r.append(name);
    push_char(&mut r, '"');
    push_char(&mut r, ':');
    push_char(&mut r, '"');
    r.append(value);
    push_char(&mut r, '"');
    assert(r@ =~= field_text(name@, value@));
    r
}

impl Expr {
    /// Writes `"name":"value"` with this segment's name.
    pub fn format(&self, value: String) -> (r: String)
        ensures
            r@ == field_text(self.name(), value@),
    {
        format_field(self.name_str(), value.as_str())
    }
}

/// The (name, value) pairs that `expr_list` captures from `line`, in the order
/// of the segments.
pub fn extract(line: &str, expr_list: &Vec<Expr>) -> (r: Vec<(String, String)>)
    requires
        all_wf(expr_list@),
    ensures
        pairs_view(r@) == captures(segments_view(expr_list@), line@),
{
    let ghost segs = segments_view(expr_list@);
    let chars = chars_of(line);
    let mut result: Vec<(String, String)> = Vec::new();
    let mut pos: usize = 0;
    let mut k: usize = 0;
    assert(chars@.subrange(0, chars@.len() as int) =~= chars@);
    assert(pairs_view(result@) =~= Seq::<SegmentView>::empty());
    while k < expr_list.len()
        invariant_except_break
            captures(segs, line@) == pairs_view(result@) + captures_from(
                segs,
                k as int,
                chars@.subrange(pos as int, chars@.len() as int),
            ),
        invariant
            chars@ == line@,
            all_wf(expr_list@),
            segs == segments_view(expr_list@),
            pos <= chars@.len(),
            k <= expr_list@.len(),
        ensures
            captures(segs, line@) == pairs_view(result@),
        decreases expr_list@.len() - k,
    {
        let ghost rest = chars@.subrange(pos as int, chars@.len() as int);
        let ghost before = result@;
        let expr = &expr_list[k];
        assert(expr.wf());
        assert(segs[k as int] == (expr.name(), expr.literal()));
        let mut matcher = expr.get_matcher();
        let n = expr.literal_len();
        if n == 0 {
            if k + 1 == expr_list.len() {
                let start = pos;
                while pos < chars.len()
                    invariant
                        start <= pos <= chars@.len(),
                        rest == chars@.subrange(start as int, chars@.len() as int),
                        matcher.wf(),
                        matcher.literal() == expr.literal(),
                        matcher.literal().len() == 0,
                        matcher.buffer() == chars@.subrange(start as int, pos as int),
                    decreases chars@.len() - pos,
                {
                    matcher.feed(chars[pos]);
                    assert(matcher.buffer() =~= chars@.subrange(start as int, pos + 1));
                    pos += 1;
                }
                let value = matcher.value();
                assert(value@ =~= rest);
                if !expr.name_str().is_empty() && !value.as_str().is_empty() {
                    let name = expr.name_str().to_owned();
                    result.push((name, value));
                }
                assert(pairs_view(result@) =~= pairs_view(before) + record(
                    expr.name(),
                    rest,
                ));
                assert(chars@.subrange(pos as int, chars@.len() as int) =~= Seq::<
                    char,
                >::empty());
            }
            k += 1;
        } else {
            let start = pos;
            let mut found: Option<String> = None;
            assert(find_from(expr.literal(), rest, 0) == find_from(expr.literal(), rest, 1));
            while found.is_none() && pos < chars.len()
                invariant
                    start <= pos <= chars@.len(),
                    rest == chars@.subrange(start as int, chars@.len() as int),
                    matcher.wf(),
                    matcher.literal() == expr.literal(),
                    n == expr.literal().len(),
                    n > 0,
                    matcher.buffer() == rest.subrange(0, pos - start),
                    found is None ==> !matcher.matched() && find_from(expr.literal(), rest, 0)
                        == find_from(expr.literal(), rest, pos - start + 1),
                    found is Some ==> {
                        &&& n <= pos - start
                        &&& find_from(expr.literal(), rest, 0) == Some(pos - start)
                        &&& found->0@ == rest.subrange(0, pos - start - n)
                    },
                decreases chars@.len() - pos, (if found is None { 1int } else { 0int }),
            {
                found = matcher.feed(chars[pos]);
                let ghost j = pos - start;
                proof {
                    let lit = expr.literal();
                    let b = rest.subrange(0, j + 1);
                    assert(matcher.buffer() =~= b);
                    if lit.len() <= j + 1 {
                        assert(b.subrange(j + 1 - lit.len(), j + 1) =~= rest.subrange(
                            j + 1 - lit.len(),
                            j + 1,
                        ));
                        assert(captured(lit, b) =~= rest.subrange(0, j + 1 - lit.len()));
                    }
                    assert(ends_at(lit, b, j + 1) == ends_at(lit, rest, j + 1));
                    assert(find_from(lit, rest, j + 1) == if ends_at(lit, rest, j + 1) {
                        Some(j + 1)
                    } else {
                        find_from(lit, rest, j + 2)
                    });
                }
                pos += 1;
            }
            match found {
                None => {
                    assert(find_from(expr.literal(), rest, rest.len() + 1int) == None::<int>);
                    assert(captures_from(segs, k as int, rest) =~= Seq::<SegmentView>::empty());
                    assert(captures(segs, line@) =~= pairs_view(result@));
                    break ;
                },
                Some(value) => {
                    if !expr.name_str().is_empty() && !value.as_str().is_empty() {
                        let name = expr.name_str().to_owned();
                        result.push((name, value));
                    }
                    assert(pairs_view(result@) =~= pairs_view(before) + record(
                        expr.name(),
                        rest.subrange(0, pos - start - n),
                    ));
                    assert(rest.subrange(pos - start, rest.len() as int) =~= chars@.subrange(
                        pos as int,
                        chars@.len() as int,
                    ));
                },
            }
            k += 1;
        }
    }
    result
}

/// The record for `line`: `None` where the template captures nothing from
/// it, else `{"name1":"value1",...}` in the order of the segments.
pub fn parse_str(line: &str, expr_list: &Vec<Expr>) -> (r: Option<String>)
    requires
        all_wf(expr_list@),
    ensures
        ({
            let caps = captures(segments_view(expr_list@), line@);
            &&& caps.len() == 0 ==> r is None
            &&& caps.len() > 0 ==> r is Some && r->0@ == record_text(caps)
        }),
{
    let result = extract(line, expr_list);
    let ghost caps = pairs_view(result@);
    if result.len() == 0 {
        return None;
    }
    let mut out = String::new();
    push_char(&mut out, '{');
    let mut i: usize = 0;
    while i < result.len()
        invariant
            i <= result@.len(),
            caps == pairs_view(result@),
            out@ == seq!['{'] + fields_text(caps.subrange(0, i as int)),
        decreases result@.len() - i,
    {
        let ghost prefix = caps.subrange(0, i as int);
        if i > 0 {
            push_char(&mut out, ',');
        }
        let field = format_field(result[i].0.as_str(), result[i].1.as_str());
        out.append(field.as_str());
        proof {
            let next = caps.subrange(0, i + 1);
            assert(next.drop_last() =~= prefix);
            assert(next.last() == caps[i as int]);
            if i == 0 {
                assert(prefix =~= Seq::<SegmentView>::empty());
            }
            assert(out@ =~= seq!['{'] + fields_text(next));
        }
        i += 1;
    }
    push_char(&mut out, '}');
    assert(caps.subrange(0, i as int) =~= caps);
    assert(out@ =~= record_text(caps));
    Some(out)
}

} // verus!
