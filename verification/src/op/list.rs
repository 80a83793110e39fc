//! `- item` / `+ item`: unordered and ordered lists, whose items may hold nested lists.
use crate::lexer::{Token, TokenKind};
use crate::op::laws::{balanced, covers, lemma_balanced_concat, lemma_covers_concat, lemma_covers_one};
use crate::op::paragraph::{para_ops, paragraph};
use crate::op::parser::{
    bpos, eof_at, first_eof, is_list_marker, item_start_exec, is_space_1, item_start_at, kind_of_marker, list_node,
    span_of, ListKind, Parser, StopCondition,
};
use crate::op::step::{
    added, advanced, lemma_advanced_trans, lemma_appended, lemma_emit, lemma_kept, lemma_restack,
    lemma_span_covers, lemma_wrap, no_content,
};
use crate::op::{Content, Node, Op, OpKind};
use vstd::prelude::*;

verus! {

/// The number of tokens that open a list item of nesting level `level`.
pub open spec fn item_width(level: int) -> int {
    if level == 0 {
        2
    } else {
        3
    }
}

/// The marker token of a list item of nesting level `level` starting at `pos`.
pub open spec fn marker_at(toks: Seq<Token>, pos: int, level: int) -> Token {
    toks[pos + item_width(level) - 2]
}

/// The kind of a list item of nesting level `level` starting at `pos`.
pub open spec fn kind_at(toks: Seq<Token>, pos: int, level: int) -> ListKind {
    kind_of_marker(marker_at(toks, pos, level))->0
}

/// Where a list item of nesting level `level` and kind `kind` ends when its opening ends at
/// `b`: its paragraph runs to the next item of this or an outer level (or another logical end
/// of input); a nested list follows if one starts there.
pub open spec fn item_end(toks: Seq<Token>, stack: Seq<StopCondition>, b: int, level: int, kind: ListKind) -> int
    decreases toks.len() - b, 1int,
{
    let e = first_eof(toks, stack.push(StopCondition::ListBoundary { level: level as usize, kind }), b);
    if e < b || eof_at(toks, stack, e) {
        e
    } else {
        match list_end(toks, stack, e, level + 1) {
            Some(f) => f,
            None => e,
        }
    }
}

/// Where a list of nesting level `level` starting at `pos` ends, if one starts there: its
/// first item fixes the kind, and the items of that kind that follow belong to it.
pub open spec fn list_end(toks: Seq<Token>, stack: Seq<StopCondition>, pos: int, level: int) -> Option<int>
    decreases toks.len() - pos, 0int,
{
    if item_start_at(toks, pos, level, None) {
        let kind = kind_at(toks, pos, level);
        let e = item_end(toks, stack, pos + item_width(level), level, kind);
        if pos < e <= toks.len() {
            Some(items_end(toks, stack, e, level, kind))
        } else {
            Some(e)
        }
    } else {
        None
    }
}

/// Where the items of nesting level `level` and kind `kind` from `k` on end.
pub open spec fn items_end(toks: Seq<Token>, stack: Seq<StopCondition>, k: int, level: int, kind: ListKind) -> int
    decreases toks.len() - k, 2int,
{
    if item_start_at(toks, k, level, Some(kind)) {
        let e = item_end(toks, stack, k + item_width(level), level, kind);
        if k < e <= toks.len() {
            items_end(toks, stack, e, level, kind)
        } else {
            k
        }
    } else {
        k
    }
}

/// The operations inside a list item of nesting level `level` and kind `kind` whose opening
/// ends at `b`: its paragraph's, then the nested list's, if one starts where the paragraph
/// ends (see [`item_end`]).
#[verifier::opaque]
pub open spec fn item_body_ops(toks: Seq<Token>, stack: Seq<StopCondition>, b: int, level: int, kind: ListKind) -> Seq<Op>
    decreases toks.len() - b, 2int,
{
    let inner = stack.push(StopCondition::ListBoundary { level: level as usize, kind });
    let e = first_eof(toks, inner, b);
    let nested = if e < b || eof_at(toks, stack, e) {
        Seq::empty()
    } else {
        match list_ops(toks, stack, e, level + 1) {
            Some(ops) => ops,
            None => Seq::empty(),
        }
    };
    para_ops(toks, inner, b) + nested
}

/// The operations of the list item of nesting level `level` and kind `kind` at `pos`: Start
/// with its opening tokens, the operations inside it and End.
#[verifier::opaque]
pub open spec fn item_ops(toks: Seq<Token>, stack: Seq<StopCondition>, pos: int, level: int, kind: ListKind) -> Seq<Op>
    decreases toks.len() - pos, 0int,
{
    let b = pos + item_width(level);
    if pos < b <= toks.len() {
        seq![Op { kind: OpKind::Start(Node::ListItem), content: span_of(toks, pos, b) }] + item_body_ops(
            toks,
            stack,
            b,
            level,
            kind,
        ) + seq![Op { kind: OpKind::End(Node::ListItem), content: no_content() }]
    } else {
        Seq::empty()
    }
}

/// The operations of the list of nesting level `level` at `pos`, if one starts there (see
/// [`list_end`]): Start and End of the list's node around its items' operations.
#[verifier::opaque]
pub open spec fn list_ops(toks: Seq<Token>, stack: Seq<StopCondition>, pos: int, level: int) -> Option<Seq<Op>>
    decreases toks.len() - pos, 1int,
{
    if item_start_at(toks, pos, level, None) {
        let kind = kind_at(toks, pos, level);
        let e = item_end(toks, stack, pos + item_width(level), level, kind);
        let rest = if pos < e <= toks.len() {
            items_ops(toks, stack, e, level, kind)
        } else {
            Seq::empty()
        };
        Some(
            seq![Op { kind: OpKind::Start(list_node(kind)), content: no_content() }] + item_ops(
                toks,
                stack,
                pos,
                level,
                kind,
            ) + rest + seq![Op { kind: OpKind::End(list_node(kind)), content: no_content() }],
        )
    } else {
        None
    }
}

/// The operations of the items of nesting level `level` and kind `kind` from `k` on (see
/// [`items_end`]).
#[verifier::opaque]
pub open spec fn items_ops(toks: Seq<Token>, stack: Seq<StopCondition>, k: int, level: int, kind: ListKind) -> Seq<Op>
    decreases toks.len() - k, 3int,
{
    if item_start_at(toks, k, level, Some(kind)) {
        let e = item_end(toks, stack, k + item_width(level), level, kind);
        if k < e <= toks.len() {
            item_ops(toks, stack, k, level, kind) + items_ops(toks, stack, e, level, kind)
        } else {
            Seq::empty()
        }
    } else {
        Seq::empty()
    }
}

/// What a list item holds: its paragraph's operations, then the nested list's, if one starts
/// where the paragraph ends.
proof fn lemma_item_body_ops(toks: Seq<Token>, stack: Seq<StopCondition>, b: int, level: int, kind: ListKind)
    ensures
        ({
            let inner = stack.push(StopCondition::ListBoundary { level: level as usize, kind });
            let e = first_eof(toks, inner, b);
            item_body_ops(toks, stack, b, level, kind) == para_ops(toks, inner, b) + if e < b || eof_at(
                toks,
                stack,
                e,
            ) {
                Seq::empty()
            } else {
                match list_ops(toks, stack, e, level + 1) {
                    Some(ops) => ops,
                    None => Seq::empty(),
                }
            }
        }),
{
    reveal(item_body_ops);
    reveal(item_ops);
    reveal(list_ops);
    reveal(items_ops);
}

/// A list item: Start with its opening tokens, what it holds, End.
proof fn lemma_item_ops(toks: Seq<Token>, stack: Seq<StopCondition>, pos: int, level: int, kind: ListKind)
    requires
        0 <= pos,
        pos + item_width(level) <= toks.len(),
    ensures
        item_ops(toks, stack, pos, level, kind) == seq![
            Op { kind: OpKind::Start(Node::ListItem), content: span_of(toks, pos, pos + item_width(level)) },
        ] + item_body_ops(toks, stack, pos + item_width(level), level, kind) + seq![
            Op { kind: OpKind::End(Node::ListItem), content: no_content() },
        ],
{
    reveal(item_body_ops);
    reveal(item_ops);
    reveal(list_ops);
    reveal(items_ops);
}

/// A list: Start, its first item, the items of its kind that follow, End.
proof fn lemma_list_ops(toks: Seq<Token>, stack: Seq<StopCondition>, pos: int, level: int)
    ensures
        !item_start_at(toks, pos, level, None) ==> list_ops(toks, stack, pos, level) is None,
        item_start_at(toks, pos, level, None) ==> ({
            let kind = kind_at(toks, pos, level);
            let e = item_end(toks, stack, pos + item_width(level), level, kind);
            list_ops(toks, stack, pos, level) == Some(
                seq![Op { kind: OpKind::Start(list_node(kind)), content: no_content() }] + item_ops(
                    toks,
                    stack,
                    pos,
                    level,
                    kind,
                ) + (if pos < e <= toks.len() {
                    items_ops(toks, stack, e, level, kind)
                } else {
                    Seq::empty()
                }) + seq![Op { kind: OpKind::End(list_node(kind)), content: no_content() }],
            )
        }),
{
    reveal(item_body_ops);
    reveal(item_ops);
    reveal(list_ops);
    reveal(items_ops);
}

/// The items from `k` on: none where no item of the kind starts; else the one at `k`, then
/// those from where it ends.
proof fn lemma_items_ops(toks: Seq<Token>, stack: Seq<StopCondition>, k: int, level: int, kind: ListKind)
    ensures
        !item_start_at(toks, k, level, Some(kind)) ==> items_ops(toks, stack, k, level, kind) == Seq::<Op>::empty(),
        item_start_at(toks, k, level, Some(kind)) ==> ({
            let e = item_end(toks, stack, k + item_width(level), level, kind);
            k < e <= toks.len() ==> items_ops(toks, stack, k, level, kind) == item_ops(
                toks,
                stack,
                k,
                level,
                kind,
            ) + items_ops(toks, stack, e, level, kind)
        }),
{
    reveal(item_body_ops);
    reveal(item_ops);
    reveal(list_ops);
    reveal(items_ops);
}

/// One more item of the list's kind: what is emitted grows by its operations.
proof fn lemma_list_more(
    t: Seq<Token>,
    stack: Seq<StopCondition>,
    start: int,
    level: int,
    kind: ListKind,
    st: Op,
    body: Seq<Op>,
    a: Seq<Op>,
    k: int,
    e: int,
)
    requires
        list_ops(t, stack, start, level) == Some(
            seq![st] + body + items_ops(t, stack, k, level, kind) + seq![
                Op { kind: OpKind::End(list_node(kind)), content: no_content() },
            ],
        ),
        item_start_at(t, k, level, Some(kind)),
        e == item_end(t, stack, k + item_width(level), level, kind),
        k < e <= t.len(),
        a == item_ops(t, stack, k, level, kind),
    ensures
        list_ops(t, stack, start, level) == Some(
            seq![st] + (body + a) + items_ops(t, stack, e, level, kind) + seq![
                Op { kind: OpKind::End(list_node(kind)), content: no_content() },
            ],
        ),
{
    lemma_items_ops(t, stack, k, level, kind);
    let z = Op { kind: OpKind::End(list_node(kind)), content: no_content() };
    let rest = items_ops(t, stack, e, level, kind);
    assert(seq![st] + body + (a + rest) + seq![z] =~= seq![st] + (body + a) + rest + seq![z]);
}

/// A list item's operations from its paragraph's and the nested list's.
proof fn lemma_item_exact(
    t: Seq<Token>,
    stack: Seq<StopCondition>,
    pos: int,
    level: int,
    kind: ListKind,
    para: Seq<Op>,
    e: int,
    nested: Seq<Op>,
)
    requires
        0 <= pos,
        pos + item_width(level) <= t.len(),
        para == para_ops(t, stack.push(StopCondition::ListBoundary { level: level as usize, kind }), pos + item_width(level)),
        e == first_eof(t, stack.push(StopCondition::ListBoundary { level: level as usize, kind }), pos + item_width(level)),
        nested == if e < pos + item_width(level) || eof_at(t, stack, e) {
            Seq::<Op>::empty()
        } else {
            match list_ops(t, stack, e, level + 1) {
                Some(ops) => ops,
                None => Seq::empty(),
            }
        },
    ensures
        seq![Op { kind: OpKind::Start(Node::ListItem), content: span_of(t, pos, pos + item_width(level)) }]
            + (para + nested) + seq![Op { kind: OpKind::End(Node::ListItem), content: no_content() }]
            == item_ops(t, stack, pos, level, kind),
{
    lemma_item_body_ops(t, stack, pos + item_width(level), level, kind);
    lemma_item_ops(t, stack, pos, level, kind);
}

proof fn lemma_item_done<'a>(p0: Parser<'a>, p1: Parser<'a>, pm: Parser<'a>, p: Parser<'a>, b: int)
    requires
        p0.wf(),
        p0.pos < b,
        p1.pos == b,
        p1.source == p0.source,
        p1.stack() == p0.stack(),
        p1.toks() == p0.toks(),
        p1.ops@ == p0.ops@.push(Op { kind: OpKind::Start(Node::ListItem), content: span_of(p0.toks(), p0.pos as int, b) }),
        advanced(p1, pm),
        pm.toks() == p0.toks(),
        p.source == pm.source,
        p.stack() == pm.stack(),
        p.toks() == pm.toks(),
        p.pos == pm.pos,
        p.ops@ == pm.ops@.push(Op { kind: OpKind::End(Node::ListItem), content: no_content() }),
    ensures
        advanced(p0, p),
        added(p0, p).len() >= 2,
        added(p0, p)[0] == (Op { kind: OpKind::Start(Node::ListItem), content: span_of(p0.toks(), p0.pos as int, b) }),
        added(p0, p).last() == (Op { kind: OpKind::End(Node::ListItem), content: no_content() }),
        added(p0, p) == seq![Op { kind: OpKind::Start(Node::ListItem), content: span_of(p0.toks(), p0.pos as int, b) }]
            + added(p1, pm) + seq![Op { kind: OpKind::End(Node::ListItem), content: no_content() }],
{
    let t = p0.toks();
    let (a, e) = (p0.pos as int, p.pos as int);
    let st = Op { kind: OpKind::Start(Node::ListItem), content: span_of(t, a, b) };
    let z = Op { kind: OpKind::End(Node::ListItem), content: no_content() };
    let body = added(p1, pm);
    lemma_span_covers(t, a, b, st.kind);
    lemma_covers_one(t, z, bpos(t, e), bpos(t, e));
    lemma_wrap(t, st, body, z, Node::ListItem, bpos(t, a), bpos(t, b), bpos(t, e), bpos(t, e));
    assert(pm.ops@ =~= p1.ops@ + body);
    assert(p.ops@ =~= p0.ops@ + (seq![st] + body + seq![z]));
    lemma_appended(p0, p, seq![st] + body + seq![z]);
    let all = seq![st] + body + seq![z];
    assert(all[0] == st);
    assert(all.last() == z);
}

/// Parses one list item of nesting level `level` (and kind `kind`, if given) at the cursor: at
/// the start of a line, `level` spaces, a marker and a space, then a paragraph up to the next
/// item of this or an outer level, then the items of a nested list, if any. Returns the item's
/// kind; the operations are Start (the opening tokens), the paragraph's, the nested list's and
/// End with no content (see [`item_ops`]).
#[verifier::rlimit(100)]
#[verifier::spinoff_prover]
fn list_item(p: &mut Parser, level: usize, kind: Option<ListKind>) -> (r: Option<ListKind>)
    requires
        old(p).wf(),
        level < usize::MAX,
    ensures
        advanced(*old(p), *final(p)),
        final(p).toks() == old(p).toks(),
        r is Some == item_start_at(old(p).toks(), old(p).pos as int, level as int, kind),
        r matches Some(k) ==> k == kind_at(old(p).toks(), old(p).pos as int, level as int)
            && final(p).pos == item_end(
            old(p).toks(),
            old(p).stack(),
            old(p).pos + item_width(level as int),
            level as int,
            k,
        ),
        r matches Some(k) ==> {
            let a = added(*old(p), *final(p));
            let w = item_width(level as int);
            &&& kind_of_marker(marker_at(old(p).toks(), old(p).pos as int, level as int)) == Some(k)
            &&& final(p).pos >= old(p).pos + w
            &&& a.len() >= 2
            &&& a[0] == Op {
                kind: OpKind::Start(Node::ListItem),
                content: span_of(old(p).toks(), old(p).pos as int, old(p).pos + w),
            }
            &&& a.last() == Op { kind: OpKind::End(Node::ListItem), content: no_content() }
            &&& a == item_ops(old(p).toks(), old(p).stack(), old(p).pos as int, level as int, k)
        },
        r is None ==> final(p).pos == old(p).pos && final(p).ops@ == old(p).ops@,
    decreases old(p).toks().len() - old(p).pos, 0nat,
{
    let ghost p0 = *p;
    let n = p.tokens.len();
    let start = p.pos;
    let ok = item_start_exec(p, level, kind);
    if !ok {
        proof {
            lemma_kept(p0, *p);
        }
        return None;
    }
    let width: usize = if level == 0 {
        2
    } else {
        3
    };
    let marker = &p.tokens[start + width - 2];
    let item_kind = match ListKind::from_marker(marker) {
        Some(k) => k,
        None => {
            proof {
                lemma_kept(p0, *p);
            }
            return None;
        },
    };
    p.pos = start + width;
    let start_content = p.span(start..start + width);
    p.ops.push(Op::new_start(Node::ListItem, start_content));
    let ghost p1 = *p;
    proof {
        lemma_kept(p1, p1);
    }
    p.push_eof(StopCondition::ListBoundary { level, kind: item_kind });
    let ghost q1 = *p;
    paragraph(p);
    let ghost q2 = *p;
    p.pop_eof();
    proof {
        assert(p.stack() =~= p1.stack());
        lemma_restack(p1, q1, q2, *p);
    }
    let ghost qp = *p;
    let ghost mut nested: Seq<Op> = Seq::empty();
    if !p.at_eof() {
        let ghost q = *p;
        let r = list_inner(p, level + 1);
        proof {
            lemma_advanced_trans(p1, q, *p);
            lemma_list_ops(p0.toks(), p0.stack(), q.pos as int, level + 1);
            nested = added(q, *p);
            if r is None {
                assert(nested =~= Seq::<Op>::empty());
            }
        }
    }
    let ghost pm = *p;
    p.ops.push(Op::new_end(Node::ListItem, Content::empty()));
    proof {
        lemma_item_done(p0, p1, pm, *p, start + width);
        let t = p0.toks();
        let b = start + width;
        assert(pm.ops@ =~= qp.ops@ + nested);
        assert(added(p1, pm) =~= added(p1, qp) + nested);
        lemma_item_exact(t, p0.stack(), start as int, level as int, item_kind, added(p1, qp), qp.pos as int, nested);
    }
    Some(item_kind)
}

/// Parses a list of nesting level `level` at the cursor (see [`list_inner`]); `true` when one
/// was found, whose operations are then those of [`list_ops`].
pub fn list(p: &mut Parser, level: usize) -> (r: bool)
    requires
        old(p).wf(),
        level < usize::MAX,
    ensures
        advanced(*old(p), *final(p)),
        final(p).toks() == old(p).toks(),
        r == (list_end(old(p).toks(), old(p).stack(), old(p).pos as int, level as int) matches Some(e)
            && (level > 0 || eof_at(old(p).toks(), old(p).stack(), e))),
        r ==> final(p).pos == list_end(old(p).toks(), old(p).stack(), old(p).pos as int, level as int)->0,
        r ==> item_start_at(old(p).toks(), old(p).pos as int, level as int, None),
        r ==> final(p).pos > old(p).pos,
        r ==> {
            let a = added(*old(p), *final(p));
            &&& a.len() >= 2
            &&& a[0].kind == OpKind::Start(list_node(kind_of_marker(marker_at(old(p).toks(), old(p).pos as int, level as int))->0))
            &&& a.last().kind == OpKind::End(list_node(kind_of_marker(marker_at(old(p).toks(), old(p).pos as int, level as int))->0))
            &&& list_ops(old(p).toks(), old(p).stack(), old(p).pos as int, level as int) == Some(a)
        },
        r && level == 0 ==> eof_at(old(p).toks(), old(p).stack(), final(p).pos as int),
        !r ==> final(p).pos == old(p).pos && final(p).ops@ == old(p).ops@,
{
    list_inner(p, level).is_some()
}

/// Parses a list of nesting level `level` at the cursor: items of the kind of the first one,
/// wrapped in Start and End of the list's node with no content. A top-level list must run to
/// a logical end of input.
#[verifier::rlimit(100)]
#[verifier::spinoff_prover]
fn list_inner(p: &mut Parser, level: usize) -> (r: Option<ListKind>)
    requires
        old(p).wf(),
        level < usize::MAX,
    ensures
        advanced(*old(p), *final(p)),
        final(p).toks() == old(p).toks(),
        r is Some == (list_end(old(p).toks(), old(p).stack(), old(p).pos as int, level as int) matches Some(e)
            && (level > 0 || eof_at(old(p).toks(), old(p).stack(), e))),
        r is Some ==> final(p).pos == list_end(old(p).toks(), old(p).stack(), old(p).pos as int, level as int)->0,
        r is Some ==> item_start_at(old(p).toks(), old(p).pos as int, level as int, None),
        r matches Some(k) ==> {
            let a = added(*old(p), *final(p));
            &&& kind_of_marker(marker_at(old(p).toks(), old(p).pos as int, level as int)) == Some(k)
            &&& final(p).pos > old(p).pos
            &&& a.len() >= 2
            &&& a[0] == Op { kind: OpKind::Start(list_node(k)), content: no_content() }
            &&& a.last() == Op { kind: OpKind::End(list_node(k)), content: no_content() }
            &&& list_ops(old(p).toks(), old(p).stack(), old(p).pos as int, level as int) == Some(a)
        },
        r is Some && level == 0 ==> eof_at(old(p).toks(), old(p).stack(), final(p).pos as int),
        r is None ==> final(p).pos == old(p).pos && final(p).ops@ == old(p).ops@,
    decreases old(p).toks().len() - old(p).pos, 1nat,
{
    let ghost p0 = *p;
    let start = p.pos;
    let snap = p.ops.len();
    let list_kind = match list_item(p, level, None) {
        Some(k) => k,
        None => {
            return None;
        },
    };
    let ghost q1 = *p;
    let ghost t = p0.toks();
    let ghost stack = p0.stack();
    let ghost st = Op { kind: OpKind::Start(list_node(list_kind)), content: no_content() };
    let ghost mut body: Seq<Op> = added(p0, q1);
    proof {
        assert(q1.ops@ =~= p0.ops@ + body);
    }
    p.ops.insert(snap, Op::new_start(list_kind.node(), Content::empty()));
    proof {
        assert(p.ops@ =~= p0.ops@ + seq![st] + body);
    }
    let ghost q2 = *p;
    proof {
        assert(item_start_at(t, start as int, level as int, None));
        lemma_list_ops(t, stack, start as int, level as int);
        assert(list_ops(t, stack, start as int, level as int) == Some(
            seq![st] + body + items_ops(t, stack, p.pos as int, level as int, list_kind) + seq![
                Op { kind: OpKind::End(list_node(list_kind)), content: no_content() },
            ],
        ));
    }
    loop
        invariant
            p0 == *old(p),
            p0.wf(),
            p.wf(),
            t == p0.toks(),
            stack == p0.stack(),
            p.toks() == t,
            p.stack() == stack,
            p.source == p0.source,
            start == p0.pos,
            snap == p0.ops@.len(),
            level < usize::MAX,
            start < p.pos,
            st == (Op { kind: OpKind::Start(list_node(list_kind)), content: no_content() }),
            p.ops@ == p0.ops@ + seq![st] + body,
            balanced(body),
            covers(t, body, bpos(t, start as int), bpos(t, p.pos as int)),
            list_kind == kind_at(t, start as int, level as int),
            list_end(t, stack, start as int, level as int) == Some(
                items_end(t, stack, p.pos as int, level as int, list_kind),
            ),
            list_ops(t, stack, start as int, level as int) == Some(
                seq![st] + body + items_ops(t, stack, p.pos as int, level as int, list_kind) + seq![
                    Op { kind: OpKind::End(list_node(list_kind)), content: no_content() },
                ],
            ),
        ensures
            !item_start_at(t, p.pos as int, level as int, Some(list_kind)),
            list_end(t, stack, start as int, level as int) == Some(p.pos as int),
        decreases t.len() - p.pos,
    {
        let ghost q = *p;
        match list_item(p, level, Some(list_kind)) {
            Some(_) => {
                proof {
                    let a = added(q, *p);
                    assert(p.ops@ =~= q.ops@ + a);
                    lemma_balanced_concat(body, a);
                    lemma_covers_concat(t, body, a, bpos(t, start as int), bpos(t, q.pos as int), bpos(t, p.pos as int));
                    assert(p.ops@ =~= p0.ops@ + seq![st] + (body + a));
                    lemma_list_more(t, stack, start as int, level as int, list_kind, st, body, a, q.pos as int, p.pos as int);
                    body = body + a;
                }
            },
            None => {
                break;
            },
        }
    }
    if level == 0 && !p.at_eof() {
        p.pos = start;
        p.ops.truncate(snap);
        proof {
            assert(p.ops@ =~= p0.ops@);
            lemma_kept(p0, *p);
        }
        return None;
    }
    p.ops.push(Op::new_end(list_kind.node(), Content::empty()));
    proof {
        let e = p.pos as int;
        let z = Op { kind: OpKind::End(list_node(list_kind)), content: no_content() };
        lemma_covers_one(t, st, bpos(t, start as int), bpos(t, start as int));
        lemma_covers_one(t, z, bpos(t, e), bpos(t, e));
        lemma_wrap(t, st, body, z, list_node(list_kind), bpos(t, start as int), bpos(t, start as int), bpos(t, e), bpos(t, e));
        assert(p.ops@ =~= p0.ops@ + (seq![st] + body + seq![z]));
        lemma_appended(p0, *p, seq![st] + body + seq![z]);
        let all = seq![st] + body + seq![z];
        assert(all[0] == st);
        assert(all.last() == z);
        lemma_items_ops(t, stack, e, level as int, list_kind);
        assert(seq![st] + body + Seq::<Op>::empty() + seq![z] =~= all);
    }
    Some(list_kind)
}

} // verus!
