//! A gallery of images, `![alt](src)` one after another, read from the tokens at the cursor.
use crate::lexer::{Token, TokenKind};
use crate::node_parser::anchor::{anchor, anchor_end, anchor_reach, closing_bracket};
use crate::node_parser::{flipped, max_of, Parser};
use crate::nodes::{Image, Images};
use crate::op::parser::span_of;
use crate::op::to_yamd::op_text;
use vstd::prelude::*;
use vstd::string::StringSliceAdditionalSpecFns;

verus! {

/// How a scan for images ends.
#[derive(PartialEq, Eq, Structural)]
pub enum ScanEnd {
    /// At a terminator or the end of the tokens.
    Idle,
    /// At a line that the caller's check claims.
    Stopped,
    /// At something that is not an image.
    Fail,
}

/// What a scan for images from a token finds: for each image, where its link starts, its
/// `]` and its closing `)`; where the scan stops and how; the link that failed, if one did;
/// how far the cursor gets; and whether a link on the way has a `)` right after its `]`
/// that closes nothing.
pub struct ImagesScan {
    pub links: Seq<(int, int, int)>,
    pub stop: int,
    pub end: ScanEnd,
    pub failed_link: Option<int>,
    pub reach: int,
    pub broken: bool,
}

/// `check` claims the token `t`.
pub open spec fn claims<F: Fn(&Token) -> bool>(check: F, t: Token) -> bool {
    check.ensures((&t,), true)
}

/// The scan for images from token `k`.
#[verifier::opaque]
pub open spec fn images_scan<F: Fn(&Token) -> bool>(toks: Seq<Token>, k: int, check: F) -> ImagesScan
    decreases toks.len() - k,
{
    let stopped = ImagesScan {
        links: Seq::empty(),
        stop: k,
        end: ScanEnd::Idle,
        failed_link: None,
        reach: k,
        broken: false,
    };
    if k < 0 || k >= toks.len() || toks[k].kind == TokenKind::Terminator {
        stopped
    } else if toks[k].kind == TokenKind::Bang {
        let a = k + 1;
        match anchor_end(toks, a) {
            None => ImagesScan {
                links: Seq::empty(),
                stop: a,
                end: ScanEnd::Fail,
                failed_link: Some(a),
                reach: max_of(a, anchor_reach(toks, a)),
                broken: false,
            },
            Some((rp, next)) => {
                let j = closing_bracket(toks, a)->0;
                if next <= k || next > toks.len() {
                    stopped
                } else {
                    let rest = images_scan(toks, next, check);
                    ImagesScan {
                        links: seq![(a, j, rp)] + rest.links,
                        broken: !(j + 2 <= rp) || rest.broken,
                        ..rest
                    }
                }
            },
        }
    } else if toks[k].kind == TokenKind::Eol {
        images_scan(toks, k + 1, check)
    } else if toks[k].position.column == 0 && claims(check, toks[k]) {
        ImagesScan { end: ScanEnd::Stopped, ..stopped }
    } else {
        ImagesScan { end: ScanEnd::Fail, ..stopped }
    }
}

/// One step of the scan for images.
proof fn lemma_images_step<F: Fn(&Token) -> bool>(toks: Seq<Token>, k: int, check: F)
    requires
        0 <= k <= toks.len(),
    ensures
        ({
            let s = images_scan(toks, k, check);
            let stopped = ImagesScan {
                links: Seq::empty(),
                stop: k,
                end: ScanEnd::Idle,
                failed_link: None,
                reach: k,
                broken: false,
            };
            &&& (k == toks.len() || toks[k].kind == TokenKind::Terminator) ==> s == stopped
            &&& (k < toks.len() && toks[k].kind == TokenKind::Eol) ==> s == images_scan(toks, k + 1, check)
            &&& (k < toks.len() && toks[k].kind == TokenKind::Bang && anchor_end(toks, k + 1) is None) ==> s == ImagesScan {
                links: Seq::empty(),
                stop: k + 1,
                end: ScanEnd::Fail,
                failed_link: Some(k + 1),
                reach: max_of(k + 1, anchor_reach(toks, k + 1)),
                broken: false,
            }
            &&& (k < toks.len() && toks[k].kind == TokenKind::Bang && anchor_end(toks, k + 1) is Some) ==> {
                let (rp, next) = anchor_end(toks, k + 1)->0;
                let j = closing_bracket(toks, k + 1)->0;
                let rest = images_scan(toks, next, check);
                &&& k < next <= toks.len()
                &&& s.links == seq![(k + 1, j, rp)] + rest.links
                &&& s.stop == rest.stop
                &&& s.end == rest.end
                &&& s.failed_link == rest.failed_link
                &&& s.reach == rest.reach
                &&& s.broken == (!(j + 2 <= rp) || rest.broken)
            }
            &&& (k < toks.len() && toks[k].kind != TokenKind::Terminator && toks[k].kind != TokenKind::Eol
                && toks[k].kind != TokenKind::Bang) ==> s == ImagesScan {
                end: if toks[k].position.column == 0 && claims(check, toks[k]) {
                    ScanEnd::Stopped
                } else {
                    ScanEnd::Fail
                },
                ..stopped
            }
        }),
{
    reveal(images_scan);
    crate::node_parser::anchor::lemma_anchor_end(toks, k + 1);
}

/// The image whose link starts at `a`, has its `]` at `j` and its closing `)` at `rp`.
pub open spec fn image_at(toks: Seq<Token>, src: Seq<u8>, l: (int, int, int)) -> (Seq<char>, Seq<char>) {
    (op_text(span_of(toks, l.0 + 1, l.1), src), op_text(span_of(toks, l.1 + 2, l.2), src))
}

/// Reads the image whose `!` is at the cursor and adds it to `images`; says whether there was
/// one.
fn read_image(p: &mut Parser, images: &mut Vec<Image>, Ghost(src): Ghost<Seq<u8>>) -> (ok: bool)
    requires
        old(p).wf(),
        old(p).stack_pos < old(p).toks().len(),
        old(p).toks()[old(p).stack_pos as int].kind == TokenKind::Bang,
        old(p).toks().len() < 0x7fff_ffff,
        old(p).stack_pos <= old(p).loaded,
        src == old(p).source.spec_bytes(),
        anchor_end(old(p).toks(), old(p).stack_pos + 1) matches Some((rp, _)) ==> closing_bracket(
            old(p).toks(),
            old(p).stack_pos + 1,
        )->0 + 2 <= rp,
    ensures
        final(p).wf(),
        final(p).source == old(p).source,
        ({
            let toks = old(p).toks();
            let a = old(p).stack_pos + 1;
            match anchor_end(toks, a) {
                Some((rp, next)) => {
                    let j = closing_bracket(toks, a)->0;
                    &&& ok
                    &&& final(p).stack_pos == next
                    &&& final(p).loaded == max_of(old(p).loaded as int, next)
                    &&& final(p).toks() == toks
                    &&& final(images)@.len() == old(images)@.len() + 1
                    &&& final(images)@.subrange(0, old(images)@.len() as int) == old(images)@
                    &&& final(images)@.last().alt@ == image_at(old(p).lexed(), src, (a, j, rp)).0
                    &&& final(images)@.last().src@ == image_at(old(p).lexed(), src, (a, j, rp)).1
                },
                None => {
                    let l = max_of(old(p).loaded as int, anchor_reach(toks, a));
                    &&& !ok
                    &&& final(p).stack_pos == a
                    &&& final(p).loaded == l
                    &&& final(p).toks() == if a < l {
                        flipped(toks, a)
                    } else {
                        toks
                    }
                    &&& final(images)@ == old(images)@
                },
            }
        }),
{
    p.step();
    proof {
        crate::node_parser::anchor::lemma_anchor_end(old(p).toks(), old(p).stack_pos + 1);
    }
    match anchor(p) {
        Some(anc) => {
            images.push(Image { alt: anc.text, src: anc.url });
            proof {
                assert(images@.subrange(0, old(images)@.len() as int) =~= old(images)@);
            }
            true
        },
        None => false,
    }
}

/// Reads one or more images, `![alt](src)`, each on a line of its own, from the token at the
/// cursor, up to a terminator, the end, or a line that `new_line_check` claims. On success the
/// cursor moves past them, and past the terminator after them, if that is where they end.
/// Otherwise the cursor stays where it was and the token there becomes a literal.
#[verifier::rlimit(100)]
#[verifier::spinoff_prover]
pub fn images(p: &mut Parser, new_line_check: impl Fn(&Token) -> bool) -> (r: Option<Images>)
    requires
        old(p).wf(),
        old(p).toks().len() < 0x7fff_ffff,
        forall|t: &Token| #[trigger] new_line_check.requires((t,)),
        forall|t: &Token, b: bool| #[trigger] new_line_check.ensures((t,), b) ==> b == new_line_check.ensures((t,), true),
        !images_scan(old(p).toks(), old(p).stack_pos as int, new_line_check).broken,
    ensures
        final(p).wf(),
        final(p).source == old(p).source,
        ({
            let s = images_scan(old(p).toks(), old(p).stack_pos as int, new_line_check);
            let toks = old(p).toks();
            let start = old(p).stack_pos as int;
            let src = old(p).source.spec_bytes();
            if s.links.len() == 0 || s.end == ScanEnd::Fail {
                let t1 = match s.failed_link {
                    Some(a) => if a < max_of(old(p).loaded as int, s.reach) {
                        flipped(toks, a)
                    } else {
                        toks
                    },
                    None => toks,
                };
                &&& r is None
                &&& final(p).stack_pos == old(p).stack_pos
                &&& final(p).loaded == max_of(old(p).loaded as int, s.reach)
                &&& final(p).toks() == if start < final(p).loaded {
                    flipped(t1, start)
                } else {
                    t1
                }
            } else {
                let stop = if s.end != ScanEnd::Stopped && s.stop < toks.len() {
                    s.stop + 1
                } else {
                    s.stop
                };
                &&& r matches Some(imgs) && imgs.body@.len() == s.links.len() && forall|i: int|
                    0 <= i < s.links.len() ==> (#[trigger] imgs.body@[i]).alt@ == image_at(old(p).lexed(), src, s.links[i]).0
                        && imgs.body@[i].src@ == image_at(old(p).lexed(), src, s.links[i]).1
                &&& final(p).stack_pos == stop
                &&& final(p).loaded == max_of(old(p).loaded as int, stop)
                &&& final(p).toks() == toks
            }
        }),
{
    let ghost toks = p.toks();
    let ghost l0 = p.loaded as int;
    let ghost src = p.source.spec_bytes();
    let ghost lx = p.lexed();
    let ghost s0 = images_scan(toks, p.stack_pos as int, new_line_check);
    let start = p.pos();
    let n = p.tokens.len();
    let mut images: Vec<Image> = Vec::new();
    let mut state = ScanEnd::Idle;
    let ghost mut done: Seq<(int, int, int)> = Seq::empty();
    let mut failed = false;
    proof {
        lemma_images_step(toks, n as int, new_line_check);
    }
    while p.stack_pos < n
        invariant_except_break
            ({
                let s = images_scan(toks, p.stack_pos as int, new_line_check);
                &&& p.toks() == toks
                &&& p.loaded == max_of(l0, p.stack_pos as int)
                &&& state == ScanEnd::Idle
                &&& s0.links == done + s.links
                &&& s0.stop == s.stop
                &&& s0.end == s.end
                &&& s0.failed_link == s.failed_link
                &&& s0.reach == s.reach
                &&& !s.broken
            }),
            !failed,
        invariant
            p.wf(),
            p.source == old(p).source,
            toks == old(p).toks(),
            l0 == old(p).loaded,
            src == old(p).source.spec_bytes(),
            lx == old(p).lexed(),
            s0 == images_scan(toks, start as int, new_line_check),
            !s0.broken,
            n == toks.len(),
            n < 0x7fff_ffff,
            start == old(p).stack_pos,
            start <= p.stack_pos <= n,
            forall|t: &Token| #[trigger] new_line_check.requires((t,)),
            forall|t: &Token, b: bool| #[trigger] new_line_check.ensures((t,), b) ==> b == new_line_check.ensures((t,), true),
            images@.len() == done.len(),
            images_scan(toks, n as int, new_line_check).links.len() == 0,
            images_scan(toks, n as int, new_line_check).stop == n,
            images_scan(toks, n as int, new_line_check).end == ScanEnd::Idle,
            images_scan(toks, n as int, new_line_check).failed_link is None,
            images_scan(toks, n as int, new_line_check).reach == n,
            forall|i: int|
                0 <= i < done.len() ==> (#[trigger] images@[i]).alt@ == image_at(lx, src, done[i]).0
                    && images@[i].src@ == image_at(lx, src, done[i]).1,
        ensures
            !failed ==> {
                &&& p.toks() == toks
                &&& p.loaded == max_of(l0, p.stack_pos as int)
                &&& s0.links == done
                &&& s0.stop == p.stack_pos
                &&& s0.end == state
                &&& s0.failed_link is None
                &&& s0.reach == p.stack_pos
            },
            failed ==> {
                let a = s0.failed_link->0;
                &&& s0.failed_link is Some
                &&& s0.end == ScanEnd::Fail
                &&& state == ScanEnd::Fail
                &&& p.stack_pos == s0.stop
                &&& p.loaded == max_of(l0, s0.reach)
                &&& p.toks() == if a < p.loaded {
                    flipped(toks, a)
                } else {
                    toks
                }
                &&& start < p.loaded
            },
        decreases n - p.stack_pos + if failed { 0int } else { 1int },
    {
        let k = p.stack_pos;
        let kind = p.tokens[k].kind;
        proof {
            lemma_images_step(toks, k as int, new_line_check);
        }
        if kind == TokenKind::Terminator {
            proof {
                assert(done + Seq::<(int, int, int)>::empty() =~= done);
            }
            break;
        } else if kind == TokenKind::Bang {
            let ghost a = k + 1;
            let ghost d0 = done;
            if read_image(p, &mut images, Ghost(src)) {
                proof {
                    let (rp, next) = anchor_end(toks, a)->0;
                    let j = closing_bracket(toks, a)->0;
                    let rest = images_scan(toks, next, new_line_check);
                    done = done.push((a, j, rp));
                    assert(d0.push((a, j, rp)) + rest.links =~= d0 + (seq![(a, j, rp)] + rest.links));
                    assert forall|i: int| 0 <= i < done.len() implies (#[trigger] images@[i]).alt@ == image_at(
                        lx,
                        src,
                        done[i],
                    ).0 && images@[i].src@ == image_at(lx, src, done[i]).1 by {
                        if i < d0.len() {
                            assert(images@[i] == images@.subrange(0, d0.len() as int)[i]);
                        }
                    }
                }
            } else {
                failed = true;
                state = ScanEnd::Fail;
                break;
            }
        } else if kind == TokenKind::Eol {
            p.step();
        } else if p.tokens[k].position.column == 0 && new_line_check(&p.tokens[k]) {
            state = ScanEnd::Stopped;
            proof {
                assert(done + Seq::<(int, int, int)>::empty() =~= done);
            }
            break;
        } else {
            state = ScanEnd::Fail;
            proof {
                assert(done + Seq::<(int, int, int)>::empty() =~= done);
            }
            break;
        }
    }
    proof {
        if !failed && p.stack_pos == n {
            lemma_images_step(toks, n as int, new_line_check);
            assert(done + Seq::<(int, int, int)>::empty() =~= done);
        }
    }
    if images.len() == 0 || state == ScanEnd::Fail {
        p.move_to(start);
        p.flip_to_literal_at(start);
        return None;
    }
    if state != ScanEnd::Stopped {
        p.next_token();
    }
    Some(Images { body: images })
}

} // verus!
