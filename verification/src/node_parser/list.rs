//! A list, `- item` or `+ item` lines, with lists nested in its items by indentation, read
//! from the tokens at the cursor.
use crate::lexer::{Token, TokenKind};
use crate::node_parser::embed::text_len;
use crate::node_parser::paragraph::{is_para_piece, lemma_para_ld_mono, para_pieces, para_scan, paragraph, ParaPiece};
use crate::node_parser::{flipped, max_of, Parser};
use crate::nodes::{List, ListItem, ListTypes, ParagraphNodes};
use vstd::prelude::*;
use vstd::string::StringSliceAdditionalSpecFns;

verus! {

/// Where the reading of a list is, after the last token it took.
#[derive(PartialEq, Eq, Structural)]
pub enum ListState {
    Idle,
    NextLevel,
    NextLevelOrdered,
    NextLevelUnordered,
    SameLevel,
    SameLevelCommit,
    PreviousLevel,
    PreviousLevelCommit,
}

/// A list as read: its kind, its level and its items.
pub struct ListShape {
    pub list_type: ListTypes,
    pub level: int,
    pub items: Seq<ItemShape>,
}

/// An item as read: the pieces of its text and the list nested in it, if any.
pub struct ItemShape {
    pub text: Seq<ParaPiece>,
    pub nested: Option<ListShape>,
}

/// What the scan of a list from a token finds: the items closed so far, the text of the item
/// not yet closed, where the scan stops, the tokens and the number taken afterwards, and
/// whether a link on the way has a `)` right after its `]` that closes nothing.
pub struct ListScan {
    pub items: Seq<ItemShape>,
    pub cur: Seq<ParaPiece>,
    pub stop: int,
    pub toks: Seq<Token>,
    pub ld: int,
    pub broken: bool,
}

/// The token is a single `-`.
pub open spec fn is_minus(t: Token) -> bool {
    t.kind == TokenKind::Minus && text_len(t) == 1
}

/// The token is a single `+`.
pub open spec fn is_plus(t: Token) -> bool {
    t.kind == TokenKind::Plus && text_len(t) == 1
}

/// The check that a line of a list item's text starts something else: a space, `+` or `-`.
pub fn starts_list_line(t: &Token) -> (b: bool)
    ensures
        b == (t.kind == TokenKind::Space || t.kind == TokenKind::Plus || t.kind == TokenKind::Minus),
{
    t.kind == TokenKind::Space || t.kind == TokenKind::Plus || t.kind == TokenKind::Minus
}

/// Where an indentation or a list marker `t` takes the reading of a list of kind `lt` at
/// level `level` from state `state`, if it is one that only moves on.
pub open spec fn marker_step(t: Token, state: ListState, lt: ListTypes, level: int) -> Option<ListState> {
    if t.kind == TokenKind::Space && state == ListState::Idle && text_len(t) < level {
        Some(ListState::PreviousLevel)
    } else if t.kind == TokenKind::Space && state == ListState::Idle && text_len(t) == level {
        Some(ListState::SameLevel)
    } else if t.kind == TokenKind::Space && state == ListState::Idle && text_len(t) == level + 1 {
        Some(ListState::NextLevel)
    } else if is_minus(t) && state == ListState::NextLevel {
        Some(ListState::NextLevelUnordered)
    } else if is_plus(t) && state == ListState::NextLevel {
        Some(ListState::NextLevelOrdered)
    } else if (is_minus(t) && lt == ListTypes::Unordered) || (is_plus(t) && lt == ListTypes::Ordered) {
        Some(ListState::SameLevelCommit)
    } else if (is_minus(t) || is_plus(t)) && state == ListState::PreviousLevel {
        Some(ListState::PreviousLevelCommit)
    } else {
        None
    }
}

/// The items of a list whose scan `s` is over: the item not yet closed counts where it has
/// text.
pub open spec fn list_items(s: ListScan) -> Seq<ItemShape> {
    if s.cur.len() > 0 {
        s.items.push(ItemShape { text: s.cur, nested: None })
    } else {
        s.items
    }
}

/// The scan of a list of kind `lt` at level `level` from token `k`, with `ld` tokens taken,
/// in state `state`, with the items closed so far and the text of the item not yet closed.
#[verifier::opaque]
pub open spec fn list_scan(
    toks: Seq<Token>,
    ld: int,
    k: int,
    state: ListState,
    lt: ListTypes,
    level: int,
    items: Seq<ItemShape>,
    cur: Seq<ParaPiece>,
) -> ListScan
    decreases toks.len() - k,
{
    let stopped = ListScan { items, cur, stop: k, toks, ld, broken: false };
    if k < 0 || k >= toks.len() {
        stopped
    } else {
        let t = toks[k];
        let next = max_of(ld, k + 1);
        if t.kind == TokenKind::Terminator {
            stopped
        } else if let Some(st) = marker_step(t, state, lt, level) {
            list_scan(toks, next, k + 1, st, lt, level, items, cur)
        } else if t.kind == TokenKind::Space && (state == ListState::NextLevelUnordered || state
            == ListState::NextLevelOrdered) {
            let nlt = if state == ListState::NextLevelUnordered {
                ListTypes::Unordered
            } else {
                ListTypes::Ordered
            };
            let ns = list_scan(toks, next, k + 1, ListState::Idle, nlt, level + 1, Seq::empty(), Seq::empty());
            let nitems = list_items(ns);
            if ns.broken {
                ListScan { broken: true, ..stopped }
            } else if nitems.len() > 0 {
                if ns.stop <= k || ns.stop > toks.len() || ns.toks.len() != toks.len() {
                    ListScan { toks: ns.toks, ld: ns.ld, stop: ns.stop, ..stopped }
                } else {
                    let item = ItemShape { text: cur, nested: Some(ListShape { list_type: nlt, level: level + 1, items: nitems }) };
                    list_scan(ns.toks, ns.ld, ns.stop, ListState::Idle, lt, level, items.push(item), Seq::empty())
                }
            } else if ns.toks.len() != toks.len() {
                ListScan { toks: ns.toks, ld: ns.ld, ..stopped }
            } else {
                list_scan(flipped(ns.toks, k), max_of(ns.ld, k + 1), k + 1, ListState::Idle, lt, level, items, cur)
            }
        } else if t.kind == TokenKind::Space && state == ListState::SameLevelCommit {
            list_scan(toks, next, k + 1, ListState::Idle, lt, level, items.push(ItemShape { text: cur, nested: None }), Seq::empty())
        } else if t.kind == TokenKind::Space && state == ListState::PreviousLevelCommit {
            ListScan { stop: k - 3, ..stopped }
        } else {
            let ps = para_scan(toks, ld, k, None, k, starts_list_line);
            if ps.broken {
                ListScan { broken: true, ..stopped }
            } else if ps.stop <= k || ps.stop > toks.len() || ps.toks.len() != toks.len() {
                ListScan { cur: cur + para_pieces(ps), toks: ps.toks, ld: ps.ld, stop: ps.stop, ..stopped }
            } else {
                list_scan(ps.toks, ps.ld, ps.stop, ListState::Idle, lt, level, items, cur + para_pieces(ps))
            }
        }
    }
}


/// The list item `it` is the item `s` read over the tokens `lexed` of `src`.
pub open spec fn is_item_of(it: ListItem, s: ItemShape, lexed: Seq<Token>, src: Seq<u8>) -> bool
    decreases s,
{
    &&& it.text@.len() == s.text.len()
    &&& forall|j: int| 0 <= j < s.text.len() ==> is_para_piece(#[trigger] it.text@[j], s.text[j], lexed, src)
    &&& match s.nested {
        Some(ns) => it.nested_list matches Some(nl) && is_list_of(nl, ns, lexed, src),
        None => it.nested_list is None,
    }
}

/// The list `l` is the list `s` read over the tokens `lexed` of `src`.
pub open spec fn is_list_of(l: List, s: ListShape, lexed: Seq<Token>, src: Seq<u8>) -> bool
    decreases s,
{
    &&& l.list_type == s.list_type
    &&& l.level == s.level
    &&& l.body@.len() == s.items.len()
    &&& forall|i: int| 0 <= i < s.items.len() ==> is_item_of(#[trigger] l.body@[i], s.items[i], lexed, src)
}

/// The scan of the list of kind `lt` at level `level` whose first item starts after the
/// space at token `start`, with `ld` tokens taken.
pub open spec fn list_at(toks: Seq<Token>, ld: int, start: int, lt: ListTypes, level: int) -> ListScan {
    list_scan(toks, max_of(ld, start + 1), start + 1, ListState::Idle, lt, level, Seq::empty(), Seq::empty())
}

/// A scan at the end stops there.
proof fn lemma_list_end(
    toks: Seq<Token>,
    ld: int,
    k: int,
    state: ListState,
    lt: ListTypes,
    level: int,
    items: Seq<ItemShape>,
    cur: Seq<ParaPiece>,
)
    ensures
        k >= toks.len() ==> list_scan(toks, ld, k, state, lt, level, items, cur) == (ListScan {
            items,
            cur,
            stop: k,
            toks,
            ld,
            broken: false,
        }),
{
    reveal(list_scan);
}

/// Where an indentation or a list marker takes the reading of a list, as `marker_step` says.
fn marker_step_exec(t: &Token, state: &ListState, lt: &ListTypes, level: usize) -> (r: Option<ListState>)
    ensures
        r == marker_step(*t, *state, *lt, level as int),
{
    let len_ok = t.range.end >= t.range.start && t.range.end - t.range.start >= t.escaped;
    let space = t.kind == TokenKind::Space;
    let idle = *state == ListState::Idle;
    if !len_ok {
        if space && idle {
            return Some(ListState::PreviousLevel);
        }
        return None;
    }
    let tl = t.range.end - t.range.start - t.escaped;
    let minus = t.kind == TokenKind::Minus && tl == 1;
    let plus = t.kind == TokenKind::Plus && tl == 1;
    if space && idle && tl < level {
        Some(ListState::PreviousLevel)
    } else if space && idle && tl == level {
        Some(ListState::SameLevel)
    } else if space && idle && level < usize::MAX && tl == level + 1 {
        Some(ListState::NextLevel)
    } else if minus && *state == ListState::NextLevel {
        Some(ListState::NextLevelUnordered)
    } else if plus && *state == ListState::NextLevel {
        Some(ListState::NextLevelOrdered)
    } else if (minus && *lt == ListTypes::Unordered) || (plus && *lt == ListTypes::Ordered) {
        Some(ListState::SameLevelCommit)
    } else if (minus || plus) && *state == ListState::PreviousLevel {
        Some(ListState::PreviousLevelCommit)
    } else {
        None
    }
}

/// Reads a list of kind `list_type` at level `level` from the space at the cursor, after the
/// marker of its first item: each item's text is read as paragraphs whose lines stop at a
/// space, `+` or `-`; a line indented by `level` spaces with the list's own marker starts the
/// next item, one indented by one more space a list nested in the item, and one indented less
/// ends the list, which then leaves the cursor on the end of line before that line. A line
/// starting with the marker of the list's own kind starts a next item whatever its
/// indentation. The result is `None` where no item was read; the cursor then stays where it
/// was and the token there becomes a literal.
#[verifier::rlimit(100)]
#[verifier::spinoff_prover]
pub fn parse_list(p: &mut Parser, list_type: &ListTypes, level: usize) -> (r: Option<List>)
    requires
        old(p).wf(),
        old(p).toks().len() < 0x7fff_ffff,
        level <= old(p).stack_pos,
        !list_at(old(p).toks(), old(p).loaded as int, old(p).stack_pos as int, *list_type, level as int).broken,
    ensures
        final(p).wf(),
        final(p).source == old(p).source,
        final(p).loaded >= old(p).loaded,
        list_at(old(p).toks(), old(p).loaded as int, old(p).stack_pos as int, *list_type, level as int).toks.len()
            == old(p).toks().len(),
        ({
            let s = list_at(old(p).toks(), old(p).loaded as int, old(p).stack_pos as int, *list_type, level as int);
            let items = list_items(s);
            let start = old(p).stack_pos as int;
            if start >= old(p).toks().len() {
                &&& r is None
                &&& final(p).stack_pos == old(p).stack_pos
                &&& final(p).loaded == old(p).loaded
                &&& final(p).toks() == old(p).toks()
            } else if items.len() > 0 {
                &&& r matches Some(l) && is_list_of(
                    l,
                    ListShape { list_type: *list_type, level: level as int, items },
                    old(p).lexed(),
                    old(p).source.spec_bytes(),
                )
                &&& final(p).stack_pos == s.stop
                &&& final(p).loaded == s.ld
                &&& final(p).toks() == s.toks
            } else {
                &&& r is None
                &&& final(p).stack_pos == start
                &&& final(p).loaded == s.ld
                &&& final(p).toks() == flipped(s.toks, start)
            }
        }),
    decreases old(p).toks().len() - old(p).stack_pos,
{
    let ghost lx = p.lexed();
    let ghost src = p.source.spec_bytes();
    let ghost s0 = list_at(old(p).toks(), old(p).loaded as int, old(p).stack_pos as int, *list_type, level as int);
    let start = p.pos();
    let n = p.tokens.len();
    if start >= n {
        proof {
            lemma_list_end(p.toks(), max_of(p.loaded as int, start + 1), start + 1, ListState::Idle, *list_type, level as int, Seq::empty(), Seq::empty());
        }
        return None;
    }
    p.next_token();
    let mut body: Vec<ListItem> = Vec::new();
    let mut text: Vec<ParagraphNodes> = Vec::new();
    let mut state = ListState::Idle;
    let ghost mut items: Seq<ItemShape> = Seq::empty();
    let ghost mut cur: Seq<ParaPiece> = Seq::empty();
    proof {
        lemma_list_end(p.toks(), p.loaded as int, p.stack_pos as int, state, *list_type, level as int, items, cur);
    }
    while p.stack_pos < n
        invariant_except_break
            list_scan(p.toks(), p.loaded as int, p.stack_pos as int, state, *list_type, level as int, items, cur) == s0,
            p.stack_pos >= n ==> s0 == (ListScan { items, cur, stop: p.stack_pos as int, toks: p.toks(), ld: p.loaded as int, broken: false }),
            start < p.stack_pos,
            state == ListState::PreviousLevel ==> p.stack_pos >= start + 2,
            state == ListState::PreviousLevelCommit ==> p.stack_pos >= start + 3,
        invariant
            p.wf(),
            p.source == old(p).source,
            lx == old(p).lexed(),
            src == old(p).source.spec_bytes(),
            n == p.toks().len(),
            n == old(p).toks().len(),
            n < 0x7fff_ffff,
            start == old(p).stack_pos,
            level <= start,
            s0 == list_at(old(p).toks(), old(p).loaded as int, old(p).stack_pos as int, *list_type, level as int),
            !s0.broken,
            start < p.loaded,
            p.loaded >= old(p).loaded,
            body@.len() == items.len(),
            forall|i: int| 0 <= i < items.len() ==> is_item_of(#[trigger] body@[i], items[i], lx, src),
            text@.len() == cur.len(),
            forall|j: int| 0 <= j < cur.len() ==> is_para_piece(#[trigger] text@[j], cur[j], lx, src),
        ensures
            s0 == (ListScan { items, cur, stop: p.stack_pos as int, toks: p.toks(), ld: p.loaded as int, broken: false }),
        decreases n - p.stack_pos,
    {
        let k = p.stack_pos;
        let ghost t0 = p.toks();
        let ghost l0 = p.loaded as int;
        let ghost st = state;
        let ghost i0 = items;
        let ghost c0 = cur;
        let ghost b0 = body@;
        let ghost x0 = text@;
        let ghost hs = list_scan(t0, l0, k as int, st, *list_type, level as int, i0, c0);
        let ghost stopped = ListScan { items: i0, cur: c0, stop: k as int, toks: t0, ld: l0, broken: false };
        let t = &p.tokens[k];
        let kind = t.kind;
        let step = marker_step_exec(t, &state, list_type, level);
        if kind == TokenKind::Terminator {
            assert(hs == stopped) by {
                reveal(list_scan);
            }
            break;
        } else if let Some(next_state) = step {
            assert(hs == list_scan(t0, max_of(l0, k + 1), k + 1, next_state, *list_type, level as int, i0, c0)) by {
                reveal(list_scan);
            }
            state = next_state;
            p.next_token();
        } else if kind == TokenKind::Space && (state == ListState::NextLevelUnordered || state == ListState::NextLevelOrdered) {
            let nested_type = if state == ListState::NextLevelUnordered {
                ListTypes::Unordered
            } else {
                ListTypes::Ordered
            };
            let ghost ns = list_at(t0, l0, k as int, nested_type, level + 1);
            let ghost nitems = list_items(ns);
            proof {
                assert(ns == list_scan(t0, max_of(l0, k + 1), k + 1, ListState::Idle, nested_type, level + 1, Seq::empty(), Seq::empty()));
                assert(hs == if ns.broken {
                    ListScan { broken: true, ..stopped }
                } else if nitems.len() > 0 {
                    if ns.stop <= k || ns.stop > t0.len() || ns.toks.len() != t0.len() {
                        ListScan { toks: ns.toks, ld: ns.ld, stop: ns.stop, ..stopped }
                    } else {
                        let item = ItemShape { text: c0, nested: Some(ListShape { list_type: nested_type, level: level + 1, items: nitems }) };
                        list_scan(ns.toks, ns.ld, ns.stop, ListState::Idle, *list_type, level as int, i0.push(item), Seq::empty())
                    }
                } else if ns.toks.len() != t0.len() {
                    ListScan { toks: ns.toks, ld: ns.ld, ..stopped }
                } else {
                    list_scan(flipped(ns.toks, k as int), max_of(ns.ld, k + 1), k + 1, ListState::Idle, *list_type, level as int, i0, c0)
                }) by {
                    reveal(list_scan);
                }
            }
            state = ListState::Idle;
            match parse_list(p, &nested_type, level + 1) {
                Some(nested) => {
                    // Where the cursor did not move on, reading on from it would not end.
                    if p.stack_pos <= k {
                        break;
                    }
                    let mut item_text: Vec<ParagraphNodes> = Vec::new();
                    std::mem::swap(&mut item_text, &mut text);
                    let ghost item = ItemShape { text: c0, nested: Some(ListShape { list_type: nested_type, level: level + 1, items: nitems }) };
                    let it = ListItem { text: item_text, nested_list: Some(nested) };
                    proof {
                        assert(is_item_of(it, item, lx, src)) by {
                            assert forall|j: int| 0 <= j < c0.len() implies is_para_piece(#[trigger] it.text@[j], c0[j], lx, src) by {
                                assert(it.text@[j] == x0[j]);
                            }
                        }
                    }
                    body.push(it);
                    proof {
                        items = i0.push(item);
                        cur = Seq::empty();
                        assert forall|i: int| 0 <= i < items.len() implies is_item_of(#[trigger] body@[i], items[i], lx, src) by {
                            if i < i0.len() {
                                assert(body@[i] == b0[i]);
                            }
                        }
                    }
                },
                None => {
                    p.next_token();
                },
            }
        } else if kind == TokenKind::Space && state == ListState::SameLevelCommit {
            let ghost item = ItemShape { text: c0, nested: None };
            assert(hs == list_scan(t0, max_of(l0, k + 1), k + 1, ListState::Idle, *list_type, level as int, i0.push(item), Seq::empty())) by {
                reveal(list_scan);
            }
            state = ListState::Idle;
            let mut item_text: Vec<ParagraphNodes> = Vec::new();
                    std::mem::swap(&mut item_text, &mut text);
            let it = ListItem { text: item_text, nested_list: None };
            proof {
                assert(is_item_of(it, item, lx, src)) by {
                    assert forall|j: int| 0 <= j < c0.len() implies is_para_piece(#[trigger] it.text@[j], c0[j], lx, src) by {
                        assert(it.text@[j] == x0[j]);
                    }
                }
            }
            body.push(it);
            proof {
                items = i0.push(item);
                cur = Seq::empty();
                assert forall|i: int| 0 <= i < items.len() implies is_item_of(#[trigger] body@[i], items[i], lx, src) by {
                    if i < i0.len() {
                        assert(body@[i] == b0[i]);
                    }
                }
            }
            p.next_token();
        } else if kind == TokenKind::Space && state == ListState::PreviousLevelCommit {
            assert(hs == ListScan { stop: k - 3, ..stopped }) by {
                reveal(list_scan);
            }
            p.move_to(k - 3);
            break;
        } else {
            let ghost ps = para_scan(t0, l0, k as int, None, k as int, starts_list_line);
            let ghost pieces = para_pieces(ps);
            proof {
                lemma_para_ld_mono(t0, l0, k as int, None, k as int, starts_list_line);
                assert(hs == if ps.broken {
                    ListScan { broken: true, ..stopped }
                } else if ps.stop <= k || ps.stop > t0.len() || ps.toks.len() != t0.len() {
                    ListScan { cur: c0 + pieces, toks: ps.toks, ld: ps.ld, stop: ps.stop, ..stopped }
                } else {
                    list_scan(ps.toks, ps.ld, ps.stop, ListState::Idle, *list_type, level as int, i0, c0 + pieces)
                }) by {
                    reveal(list_scan);
                }
            }
            state = ListState::Idle;
            match paragraph(p, starts_list_line) {
                Some(pg) => {
                    let mut more = pg.body;
                    let ghost m0 = more@;
                    text.append(&mut more);
                    proof {
                        cur = c0 + pieces;
                        assert forall|j: int| 0 <= j < cur.len() implies is_para_piece(#[trigger] text@[j], cur[j], lx, src) by {
                            if j < c0.len() {
                                assert(text@[j] == x0[j]);
                            } else {
                                assert(text@[j] == m0[j - c0.len()]);
                            }
                        }
                    }
                },
                None => {
                    proof {
                        cur = c0 + pieces;
                        assert(cur =~= c0);
                    }
                },
            }
            // Where the cursor did not move on, reading on from it would not end.
            if p.stack_pos <= k {
                break;
            }
        }
        proof {
            lemma_list_end(p.toks(), p.loaded as int, p.stack_pos as int, state, *list_type, level as int, items, cur);
        }
    }
    let ghost i1 = items;
    let ghost b1 = body@;
    if text.len() > 0 {
        let it = ListItem { text, nested_list: None };
        body.push(it);
        proof {
            items = items.push(ItemShape { text: cur, nested: None });
            assert forall|i: int| 0 <= i < items.len() implies is_item_of(#[trigger] body@[i], items[i], lx, src) by {
                if i < i1.len() {
                    assert(body@[i] == b1[i]);
                }
            }
        }
    }
    proof {
        assert(items == list_items(s0));
    }
    if body.len() == 0 {
        p.move_to(start);
        p.flip_to_literal_at(start);
        return None;
    }
    let l = List { list_type: *list_type, level, body };
    proof {
        assert forall|i: int| 0 <= i < items.len() implies is_item_of(#[trigger] l.body@[i], items[i], lx, src) by {
            assert(l.body@[i] == body@[i]);
        }
    }
    Some(l)
}


/// The index of the first token from `k` on that is neither `-` nor `+`, or the end.
pub open spec fn marker_run_end(toks: Seq<Token>, k: int) -> int
    decreases toks.len() - k,
{
    if k < 0 || k >= toks.len() {
        toks.len() as int
    } else if toks[k].kind == TokenKind::Minus || toks[k].kind == TokenKind::Plus {
        marker_run_end(toks, k + 1)
    } else {
        k
    }
}

/// A run of `-` and `+` from `start` is followed by a space, which opens a list.
pub open spec fn list_opens(toks: Seq<Token>, start: int) -> bool {
    let e = marker_run_end(toks, start);
    e > start && e < toks.len() && toks[e].kind == TokenKind::Space
}

/// The kind of the list that the marker before the space at `e` opens.
pub open spec fn opened_kind(toks: Seq<Token>, e: int) -> ListTypes {
    if toks[e - 1].kind == TokenKind::Minus {
        ListTypes::Unordered
    } else {
        ListTypes::Ordered
    }
}

proof fn lemma_marker_run(toks: Seq<Token>, k: int)
    requires
        0 <= k <= toks.len(),
    ensures
        k <= marker_run_end(toks, k) <= toks.len(),
        marker_run_end(toks, k) < toks.len() ==> !(toks[marker_run_end(toks, k)].kind == TokenKind::Minus
            || toks[marker_run_end(toks, k)].kind == TokenKind::Plus),
        forall|i: int| k <= i < marker_run_end(toks, k) ==> (toks[i].kind == TokenKind::Minus || toks[i].kind == TokenKind::Plus),
    decreases toks.len() - k,
{
    if k < toks.len() && (toks[k].kind == TokenKind::Minus || toks[k].kind == TokenKind::Plus) {
        lemma_marker_run(toks, k + 1);
    }
}

/// Reads a list from the `-` or `+` at the cursor: a run of markers, then a space, then the
/// list at level zero whose kind the last marker gives. The result is `None` where there is
/// no such list; the cursor then stays where it was and the token there becomes a literal.
pub fn list(p: &mut Parser) -> (r: Option<List>)
    requires
        old(p).wf(),
        old(p).toks().len() < 0x7fff_ffff,
        ({
            let toks = old(p).toks();
            let e = marker_run_end(toks, old(p).stack_pos as int);
            list_opens(toks, old(p).stack_pos as int) ==> !list_at(
                toks,
                max_of(old(p).loaded as int, e),
                e,
                opened_kind(toks, e),
                0,
            ).broken
        }),
    ensures
        final(p).wf(),
        final(p).source == old(p).source,
        ({
            let toks = old(p).toks();
            let start = old(p).stack_pos as int;
            let e = marker_run_end(toks, start);
            let le = max_of(old(p).loaded as int, e);
            if list_opens(toks, start) {
                let s = list_at(toks, le, e, opened_kind(toks, e), 0);
                let items = list_items(s);
                if items.len() > 0 {
                    &&& r matches Some(l) && is_list_of(
                        l,
                        ListShape { list_type: opened_kind(toks, e), level: 0, items },
                        old(p).lexed(),
                        old(p).source.spec_bytes(),
                    )
                    &&& final(p).stack_pos == s.stop
                    &&& final(p).loaded == s.ld
                    &&& final(p).toks() == s.toks
                } else {
                    &&& r is None
                    &&& final(p).stack_pos == start
                    &&& final(p).loaded == s.ld
                    &&& final(p).toks() == flipped(flipped(s.toks, e), start)
                }
            } else {
                &&& r is None
                &&& final(p).stack_pos == start
                &&& final(p).loaded == le
                &&& final(p).toks() == if start < le {
                    flipped(toks, start)
                } else {
                    toks
                }
            }
        }),
{
    let ghost toks = p.toks();
    let ghost l0 = p.loaded as int;
    let start = p.pos();
    let n = p.tokens.len();
    let ghost e = marker_run_end(toks, start as int);
    proof {
        lemma_marker_run(toks, start as int);
    }
    let mut state = ListState::Idle;
    while p.stack_pos < n
        invariant
            p.wf(),
            p.source == old(p).source,
            p.toks() == toks,
            toks == old(p).toks(),
            n == toks.len(),
            n < 0x7fff_ffff,
            l0 == old(p).loaded,
            start == old(p).stack_pos,
            e == marker_run_end(toks, start as int),
            start <= p.stack_pos <= e <= n,
            p.loaded == max_of(l0, p.stack_pos as int),
            state == ListState::Idle <==> p.stack_pos == start,
            state == ListState::Idle || state == ListState::NextLevelUnordered || state == ListState::NextLevelOrdered,
            state != ListState::Idle ==> (state == ListState::NextLevelUnordered <==> toks[p.stack_pos - 1].kind
                == TokenKind::Minus),
            forall|i: int| start <= i < e ==> (toks[i].kind == TokenKind::Minus || toks[i].kind == TokenKind::Plus),
            e < n ==> !(toks[e].kind == TokenKind::Minus || toks[e].kind == TokenKind::Plus),
            list_opens(toks, start as int) ==> !list_at(toks, max_of(l0, e), e, opened_kind(toks, e), 0).broken,
        ensures
            p.wf(),
            p.source == old(p).source,
            p.toks() == toks,
            p.stack_pos == e,
            p.loaded == max_of(l0, e),
            !list_opens(toks, start as int),
        decreases n - p.stack_pos,
    {
        let k = p.stack_pos;
        let kind = p.tokens[k].kind;
        if kind == TokenKind::Minus {
            state = ListState::NextLevelUnordered;
            p.next_token();
        } else if kind == TokenKind::Plus {
            state = ListState::NextLevelOrdered;
            p.next_token();
        } else if kind == TokenKind::Space && state != ListState::Idle {
            let list_type = if state == ListState::NextLevelUnordered {
                ListTypes::Unordered
            } else {
                ListTypes::Ordered
            };
            proof {
                assert(k == e);
                assert(list_type == opened_kind(toks, e));
            }
            match parse_list(p, &list_type, 0) {
                Some(l) => {
                    return Some(l);
                },
                None => {
                    p.move_to(start);
                    p.flip_to_literal_at(start);
                    return None;
                },
            }
        } else {
            break;
        }
    }
    p.move_to(start);
    p.flip_to_literal_at(start);
    None
}

} // verus!
