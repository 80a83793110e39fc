//! What every operation stream of this module obeys: Start/End pairs nest, and the content
//! spans cover the consumed input exactly once, in order.
use crate::lexer::Token;
use crate::op::parser::bpos;
use crate::op::{Node, Op, OpKind};
use vstd::prelude::*;

verus! {

/// Runs `ops` against the stack of open nodes `st`: a Start pushes its node, an End must close
/// the innermost open node of the same kind, a Value changes nothing. `None` when an End does
/// not match.
pub open spec fn nest(ops: Seq<Op>, st: Seq<Node>) -> Option<Seq<Node>>
    decreases ops.len(),
{
    if ops.len() == 0 {
        Some(st)
    } else {
        match ops[0].kind {
            OpKind::Start(n) => nest(ops.drop_first(), st.push(n)),
            OpKind::End(n) => if st.len() > 0 && st.last() == n {
                nest(ops.drop_first(), st.drop_last())
            } else {
                None
            },
            OpKind::Value => nest(ops.drop_first(), st),
        }
    }
}

/// Every Start in `ops` has a matching End after it and every End a matching Start before it.
pub open spec fn balanced(ops: Seq<Op>) -> bool {
    nest(ops, Seq::empty()) == Some(Seq::<Node>::empty())
}

/// How many nodes `ops` leaves open: one for each Start, less one for each End.
pub open spec fn open_count(ops: Seq<Op>) -> int
    decreases ops.len(),
{
    if ops.len() == 0 {
        0
    } else {
        (match ops[0].kind {
            OpKind::Start(_) => 1int,
            OpKind::End(_) => -1int,
            OpKind::Value => 0int,
        }) + open_count(ops.drop_first())
    }
}

/// No prefix of `ops` closes more nodes than it opens, and `ops` as a whole closes all it
/// opens: read over a document that is open from the start, no End ever closes the document
/// and the document is all that is open at the end.
pub open spec fn keeps_root(ops: Seq<Op>) -> bool {
    &&& forall|i: int| 0 <= i <= ops.len() ==> open_count(#[trigger] ops.take(i)) >= 0
    &&& open_count(ops) == 0
}

/// Where `ops` nests from the open nodes `st`, no prefix of it closes more than `st` and it
/// opens, and it leaves open as many as `st` and it opens less what it closes.
proof fn lemma_nest_count(ops: Seq<Op>, st: Seq<Node>)
    requires
        nest(ops, st) is Some,
    ensures
        forall|i: int| 0 <= i <= ops.len() ==> st.len() + open_count(#[trigger] ops.take(i)) >= 0,
        nest(ops, st)->0.len() == st.len() + open_count(ops),
    decreases ops.len(),
{
    if ops.len() == 0 {
        assert forall|i: int| 0 <= i <= ops.len() implies st.len() + open_count(#[trigger] ops.take(i)) >= 0 by {
            assert(ops.take(i).len() == 0);
        }
    } else {
        let rest = ops.drop_first();
        let st2 = match ops[0].kind {
            OpKind::Start(n) => st.push(n),
            OpKind::End(n) => st.drop_last(),
            OpKind::Value => st,
        };
        lemma_nest_count(rest, st2);
        assert forall|i: int| 0 <= i <= ops.len() implies st.len() + open_count(#[trigger] ops.take(i)) >= 0 by {
            if i == 0 {
                assert(ops.take(i).len() == 0);
            } else {
                assert(ops.take(i).drop_first() =~= rest.take(i - 1));
                assert(ops.take(i)[0] == ops[0]);
                assert(open_count(rest.take(i - 1)) + st2.len() >= 0);
            }
        }
    }
}

/// A stream whose Starts and Ends pair up keeps the document open all through and closes
/// all else.
pub proof fn law_balanced_keeps_root(ops: Seq<Op>)
    requires
        balanced(ops),
    ensures
        keeps_root(ops),
{
    lemma_nest_count(ops, Seq::empty());
}

/// Byte `j` is where one of the tokens `t` starts, or where the last one ends.
#[verifier::opaque]
pub open spec fn at_token_bound(t: Seq<Token>, j: int) -> bool {
    exists|k: int| 0 <= k <= t.len() && #[trigger] bpos(t, k) == j
}

/// The non-empty content spans of `ops`, in order, cover the bytes `lo..hi` exactly once, and
/// each ends where one of the tokens `t` starts or the last one ends.
#[verifier::opaque]
pub open spec fn covers(t: Seq<Token>, ops: Seq<Op>, lo: int, hi: int) -> bool
    decreases ops.len(),
{
    if ops.len() == 0 {
        lo == hi
    } else {
        let c = ops[0].content.span;
        if c.start >= c.end {
            covers(t, ops.drop_first(), lo, hi)
        } else {
            c.start == lo && at_token_bound(t, c.end as int) && covers(t, ops.drop_first(), c.end as int, hi)
        }
    }
}

/// Nothing covers an empty range.
pub proof fn lemma_covers_empty(t: Seq<Token>, lo: int)
    ensures
        covers(t, Seq::<Op>::empty(), lo, lo),
{
    reveal(covers);
}

/// Covering does not depend on the tokens but for where they start.
pub proof fn lemma_covers_retok(t1: Seq<Token>, t2: Seq<Token>, ops: Seq<Op>, lo: int, hi: int)
    requires
        t1.len() == t2.len(),
        forall|k: int| #[trigger] bpos(t2, k) == bpos(t1, k),
        covers(t1, ops, lo, hi),
    ensures
        covers(t2, ops, lo, hi),
    decreases ops.len(),
{
    reveal(covers);
    if ops.len() > 0 {
        let c = ops[0].content.span;
        if c.start >= c.end {
            lemma_covers_retok(t1, t2, ops.drop_first(), lo, hi);
        } else {
            reveal(at_token_bound);
            let k = choose|k: int| 0 <= k <= t1.len() && #[trigger] bpos(t1, k) == c.end as int;
            assert(bpos(t2, k) == c.end);
            lemma_covers_retok(t1, t2, ops.drop_first(), c.end as int, hi);
        }
    }
}

/// Where the covered bytes start at a token boundary, every non-empty span of the operations
/// starts and ends at one, within the covered bytes.
pub proof fn lemma_covers_bounds(t: Seq<Token>, ops: Seq<Op>, lo: int, hi: int)
    requires
        covers(t, ops, lo, hi),
        at_token_bound(t, lo),
    ensures
        forall|i: int|
            0 <= i < ops.len() && (#[trigger] ops[i]).content.span.start < ops[i].content.span.end ==> {
                &&& at_token_bound(t, ops[i].content.span.start as int)
                &&& at_token_bound(t, ops[i].content.span.end as int)
                &&& lo <= ops[i].content.span.start
                &&& ops[i].content.span.end <= hi
            },
    decreases ops.len(),
{
    reveal(covers);
    if ops.len() > 0 {
        let c = ops[0].content.span;
        let rest = ops.drop_first();
        if c.start >= c.end {
            lemma_covers_bounds(t, rest, lo, hi);
            lemma_covers_le(t, rest, lo, hi);
        } else {
            lemma_covers_bounds(t, rest, c.end as int, hi);
            lemma_covers_le(t, rest, c.end as int, hi);
        }
        assert forall|i: int|
            0 <= i < ops.len() && (#[trigger] ops[i]).content.span.start < ops[i].content.span.end implies {
                &&& at_token_bound(t, ops[i].content.span.start as int)
                &&& at_token_bound(t, ops[i].content.span.end as int)
                &&& lo <= ops[i].content.span.start
                &&& ops[i].content.span.end <= hi
            } by {
            if i > 0 {
                assert(ops[i] == rest[i - 1]);
            }
        }
    }
}

/// What covers a range starts no later than it ends.
pub proof fn lemma_covers_le(t: Seq<Token>, ops: Seq<Op>, lo: int, hi: int)
    requires
        covers(t, ops, lo, hi),
    ensures
        lo <= hi,
    decreases ops.len(),
{
    reveal(covers);
    if ops.len() > 0 {
        let c = ops[0].content.span;
        if c.start >= c.end {
            lemma_covers_le(t, ops.drop_first(), lo, hi);
        } else {
            lemma_covers_le(t, ops.drop_first(), c.end as int, hi);
        }
    }
}

/// Running ops against a taller stack leaves the extra bottom part alone.
pub proof fn lemma_nest_frame(ops: Seq<Op>, st: Seq<Node>, pre: Seq<Node>)
    ensures
        nest(ops, st) matches Some(t) ==> nest(ops, pre + st) == Some(pre + t),
    decreases ops.len(),
{
    if ops.len() > 0 {
        match ops[0].kind {
            OpKind::Start(n) => {
                lemma_nest_frame(ops.drop_first(), st.push(n), pre);
                assert(pre + st.push(n) == (pre + st).push(n));
            },
            OpKind::End(n) => {
                if st.len() > 0 && st.last() == n {
                    lemma_nest_frame(ops.drop_first(), st.drop_last(), pre);
                    assert(pre + st.drop_last() == (pre + st).drop_last());
                }
            },
            OpKind::Value => {
                lemma_nest_frame(ops.drop_first(), st, pre);
            },
        }
    }
}

/// Running a concatenation runs the parts one after the other.
pub proof fn lemma_nest_concat(a: Seq<Op>, b: Seq<Op>, st: Seq<Node>)
    ensures
        nest(a + b, st) == match nest(a, st) {
            Some(t) => nest(b, t),
            None => None,
        },
    decreases a.len(),
{
    if a.len() == 0 {
        assert(a + b == b);
    } else {
        assert((a + b).drop_first() == a.drop_first() + b);
        assert((a + b)[0] == a[0]);
        match a[0].kind {
            OpKind::Start(n) => lemma_nest_concat(a.drop_first(), b, st.push(n)),
            OpKind::End(n) => {
                if st.len() > 0 && st.last() == n {
                    lemma_nest_concat(a.drop_first(), b, st.drop_last());
                }
            },
            OpKind::Value => lemma_nest_concat(a.drop_first(), b, st),
        }
    }
}

/// A balanced stream leaves any stack as it found it.
pub proof fn lemma_balanced_any_stack(ops: Seq<Op>, st: Seq<Node>)
    requires
        balanced(ops),
    ensures
        nest(ops, st) == Some(st),
{
    lemma_nest_frame(ops, Seq::empty(), st);
    assert(st + Seq::<Node>::empty() == st);
}

/// Two balanced streams in a row are balanced.
pub proof fn lemma_balanced_concat(a: Seq<Op>, b: Seq<Op>)
    requires
        balanced(a),
        balanced(b),
    ensures
        balanced(a + b),
{
    lemma_nest_concat(a, b, Seq::empty());
}

/// A balanced stream between a Start and an End of the same node is balanced.
pub proof fn lemma_balanced_wrap(s: Op, body: Seq<Op>, e: Op, n: Node)
    requires
        s.kind == OpKind::Start(n),
        e.kind == OpKind::End(n),
        balanced(body),
    ensures
        balanced(seq![s] + body + seq![e]),
{
    let st0 = Seq::<Node>::empty();
    lemma_nest_concat(seq![s] + body, seq![e], st0);
    lemma_nest_concat(seq![s], body, st0);
    assert(seq![s][0] == s);
    assert(seq![s].drop_first() =~= Seq::<Op>::empty());
    assert(nest(seq![s], st0) == Some(st0.push(n))) by {
        reveal_with_fuel(nest, 2);
    }
    lemma_balanced_any_stack(body, st0.push(n));
    assert(st0.push(n).drop_last() =~= st0);
    assert(seq![e][0] == e);
    assert(seq![e].drop_first() =~= Seq::<Op>::empty());
    assert(nest(seq![e], st0.push(n)) == Some(st0)) by {
        reveal_with_fuel(nest, 2);
    }
}

/// A single Value is balanced, and so is no op at all.
pub proof fn lemma_balanced_small(v: Op)
    requires
        v.kind == OpKind::Value,
    ensures
        balanced(seq![v]),
        balanced(Seq::<Op>::empty()),
{
    reveal_with_fuel(nest, 2);
    assert(seq![v].drop_first() =~= Seq::<Op>::empty());
    assert(seq![v][0] == v);
}

/// Covering two adjacent ranges in a row covers their union.
pub proof fn lemma_covers_concat(t: Seq<Token>, a: Seq<Op>, b: Seq<Op>, lo: int, mid: int, hi: int)
    requires
        covers(t, a, lo, mid),
        covers(t, b, mid, hi),
    ensures
        covers(t, a + b, lo, hi),
    decreases a.len(),
{
    reveal(covers);
    if a.len() == 0 {
        assert(a + b == b);
    } else {
        assert((a + b).drop_first() == a.drop_first() + b);
        assert((a + b)[0] == a[0]);
        let c = a[0].content.span;
        if c.start >= c.end {
            lemma_covers_concat(t, a.drop_first(), b, lo, mid, hi);
        } else {
            lemma_covers_concat(t, a.drop_first(), b, c.end as int, mid, hi);
        }
    }
}

/// A single op covers its own span (nothing, when the span is empty).
pub proof fn lemma_covers_one(t: Seq<Token>, o: Op, lo: int, hi: int)
    requires
        o.content.span.start >= o.content.span.end ==> lo == hi,
        o.content.span.start < o.content.span.end ==> o.content.span.start == lo
            && o.content.span.end == hi && at_token_bound(t, hi),
    ensures
        covers(t, seq![o], lo, hi),
{
    reveal_with_fuel(covers, 2);
    assert(seq![o].drop_first() =~= Seq::<Op>::empty());
    assert(seq![o][0] == o);
}

} // verus!
