//! The inline tokenizer.
//!
//! A text run is scanned once, left to right. A SIMD search (two
//! three-needle `memchr3` calls) jumps to the next trigger byte; a targeted
//! parse is attempted there. A failed attempt leaves the byte as plain
//! text; a successful one flushes the pending text run and emits the node.
//! Nested emphasis, strong and strikethrough content is parsed by recursion
//! over the inner substring.
//!
//! Every produced node is well-formed and lies inside
//! `[base_offset, base_offset + text.len()]`, in source order
//! ([`inlines_in_range`]).

use vstd::prelude::*;

use crate::ast::{
    inline_span, inline_wf, inlines_in_range, AutoLink, CodeSpan, Emphasis, FootnoteRef, Inline,
    Link, Strikethrough, Strong, Text,
};
use crate::bytes::{contains_sub, copy_range, matches_at, starts_with_at};
use crate::search::{memchr3_in, memchr_in};
use crate::span::Span;
use crate::tokens::{kw_mailto, kw_mailto_v, kw_scheme_sep, kw_scheme_sep_v};

verus! {

/// A byte that can open an inline construct: `*`, `` ` ``, `[`, `\`, `~`
/// or `<`.
pub open spec fn is_trigger(b: u8) -> bool {
    b == 42 || b == 96 || b == 91 || b == 92 || b == 126 || b == 60
}

/// No byte of `s` can open an inline construct.
pub open spec fn no_triggers(s: Seq<u8>) -> bool {
    forall|i: int| 0 <= i < s.len() ==> !is_trigger(#[trigger] s[i])
}

/// What [`parse_inlines`] guarantees of the inline content parsed from the
/// text run `s[lo..hi]` at base offset `lo`: nodes are well-formed, in
/// source order and inside the run; a run without trigger bytes is exactly
/// one verbatim `Text` node; an empty run has no nodes.
pub open spec fn inline_run_matches(content: Seq<Inline>, s: Seq<u8>, lo: int, hi: int) -> bool {
    &&& inlines_in_range(content, lo, hi)
    &&& (no_triggers(s.subrange(lo, hi)) && hi > lo) ==> {
        &&& content.len() == 1
        &&& content[0] matches Inline::Text(t) && t.content@ == s.subrange(lo, hi)
            && t.span.start == lo && t.span.end == hi
    }
    &&& lo == hi ==> content.len() == 0

}

/// The same guarantee over an explicit text run placed at `base` (for runs
/// that are not contiguous slices of the original input, such as trimmed
/// line text).
pub open spec fn inline_run_matches_text(content: Seq<Inline>, text: Seq<u8>, base: int) -> bool {
    &&& inlines_in_range(content, base, base + text.len())
    &&& (no_triggers(text) && text.len() > 0) ==> {
        &&& content.len() == 1
        &&& content[0] matches Inline::Text(t) && t.content@ == text && t.span.start == base
            && t.span.end == base + text.len()
    }
    &&& text.len() == 0 ==> content.len() == 0

}

/// Position of the first `]]` at or after `q`, or the text length.
pub open spec fn link_close_from(t: Seq<u8>, q: int) -> int
    decreases t.len() - q,
    when 0 <= q
{
    if q >= t.len() {
        t.len() as int
    } else if t[q] == 93 && q + 1 < t.len() && t[q + 1] == 93 {
        q
    } else {
        link_close_from(t, q + 1)
    }
}

pub proof fn lemma_link_close_skip(t: Seq<u8>, q: int, p: int)
    requires
        0 <= q <= p <= t.len(),
        forall|j: int| q <= j < p ==> t[j] != 93,
    ensures
        link_close_from(t, q) == link_close_from(t, p),
    decreases p - q,
{
    if q < p {
        lemma_link_close_skip(t, q + 1, p);
    }
}

pub proof fn lemma_link_close_props(t: Seq<u8>, q: int)
    requires
        0 <= q <= t.len(),
    ensures
        q <= link_close_from(t, q),
        link_close_from(t, q) <= t.len(),
        link_close_from(t, q) < t.len() ==> {
            let p = link_close_from(t, q);
            t[p] == 93 && p + 1 < t.len() && t[p + 1] == 93
        },
    decreases t.len() - q,
{
    if q < t.len() && !(t[q] == 93 && q + 1 < t.len() && t[q + 1] == 93) {
        lemma_link_close_props(t, q + 1);
    }
}

/// Position of the first valid two-byte closer `bb` at or after `q`: the
/// byte before it must not be a space and it must lie after `cs`. Returns
/// the text length when no closer exists.
pub open spec fn pair_close_from(t: Seq<u8>, q: int, cs: int, b: u8) -> int
    decreases t.len() - q,
    when 0 <= q
{
    if q >= t.len() {
        t.len() as int
    } else if t[q] == b && q + 1 < t.len() && t[q + 1] == b && q > cs && t[q - 1] != 32 {
        q
    } else {
        pair_close_from(t, q + 1, cs, b)
    }
}

pub proof fn lemma_pair_close_skip(t: Seq<u8>, q: int, p: int, cs: int, b: u8)
    requires
        0 <= q <= p <= t.len(),
        forall|j: int| q <= j < p ==> t[j] != b,
    ensures
        pair_close_from(t, q, cs, b) == pair_close_from(t, p, cs, b),
    decreases p - q,
{
    if q < p {
        lemma_pair_close_skip(t, q + 1, p, cs, b);
    }
}

pub proof fn lemma_pair_close_props(t: Seq<u8>, q: int, cs: int, b: u8)
    requires
        0 <= q <= t.len(),
    ensures
        q <= pair_close_from(t, q, cs, b),
        pair_close_from(t, q, cs, b) <= t.len(),
        pair_close_from(t, q, cs, b) < t.len() ==> {
            let p = pair_close_from(t, q, cs, b);
            t[p] == b && p + 1 < t.len() && t[p + 1] == b && p > cs && t[p - 1] != 32
        },
    decreases t.len() - q,
{
    if q < t.len() && !(t[q] == b && q + 1 < t.len() && t[q + 1] == b && q > cs && t[q - 1]
        != 32) {
        lemma_pair_close_props(t, q + 1, cs, b);
    }
}

/// Position of the first valid single `*` closer at or after `q`: `**`
/// pairs are skipped, the byte before the closer must not be a space, and
/// the closer must lie after `cs`. Returns the text length when no closer
/// exists.
pub open spec fn em_close_from(t: Seq<u8>, q: int, cs: int) -> int
    decreases t.len() - q,
    when 0 <= q
{
    if q >= t.len() {
        t.len() as int
    } else if t[q] != 42 {
        em_close_from(t, q + 1, cs)
    } else if q + 1 < t.len() && t[q + 1] == 42 {
        em_close_from(t, q + 2, cs)
    } else if q > cs && t[q - 1] != 32 {
        q
    } else {
        em_close_from(t, q + 1, cs)
    }
}

pub proof fn lemma_em_close_skip(t: Seq<u8>, q: int, p: int, cs: int)
    requires
        0 <= q <= p <= t.len(),
        forall|j: int| q <= j < p ==> t[j] != 42,
    ensures
        em_close_from(t, q, cs) == em_close_from(t, p, cs),
    decreases p - q,
{
    if q < p {
        lemma_em_close_skip(t, q + 1, p, cs);
    }
}

pub proof fn lemma_em_close_props(t: Seq<u8>, q: int, cs: int)
    requires
        0 <= q <= t.len(),
    ensures
        q <= em_close_from(t, q, cs),
        em_close_from(t, q, cs) <= t.len(),
        em_close_from(t, q, cs) < t.len() ==> {
            let p = em_close_from(t, q, cs);
            t[p] == 42 && !(p + 1 < t.len() && t[p + 1] == 42) && p > cs && t[p - 1] != 32
        },
    decreases t.len() - q,
{
    if q < t.len() {
        if t[q] != 42 {
            lemma_em_close_props(t, q + 1, cs);
        } else if q + 1 < t.len() && t[q + 1] == 42 {
            lemma_em_close_props(t, q + 2, cs);
        } else if !(q > cs && t[q - 1] != 32) {
            lemma_em_close_props(t, q + 1, cs);
        }
    }
}

/// Position of the first trigger byte at or after `j`, or the text
/// length.
pub open spec fn next_trigger(t: Seq<u8>, j: int) -> int
    decreases t.len() - j,
    when 0 <= j
{
    if j >= t.len() {
        t.len() as int
    } else if is_trigger(t[j]) {
        j
    } else {
        next_trigger(t, j + 1)
    }
}

pub proof fn lemma_next_trigger_skip(t: Seq<u8>, j: int, p: int)
    requires
        0 <= j <= p <= t.len(),
        forall|i: int| j <= i < p ==> !is_trigger(#[trigger] t[i]),
    ensures
        next_trigger(t, j) == next_trigger(t, p),
    decreases p - j,
{
    if j < p {
        lemma_next_trigger_skip(t, j + 1, p);
    }
}

pub proof fn lemma_next_trigger_props(t: Seq<u8>, j: int)
    requires
        0 <= j <= t.len(),
    ensures
        j <= next_trigger(t, j) <= t.len(),
        next_trigger(t, j) < t.len() ==> is_trigger(t[next_trigger(t, j)]),
    decreases t.len() - j,
{
    if j < t.len() && !is_trigger(t[j]) {
        lemma_next_trigger_props(t, j + 1);
    }
}

/// One step of the inline scan, recorded by source positions: a text run,
/// or a construct identified by its opener and closer positions.
pub enum InlineEv {
    /// Plain text over `[a, b)`.
    Txt(int, int),
    /// Code span opened at the backtick and closed at the backtick.
    Code(int, int),
    /// `[[...]]` link opened at the bracket, closed at the first `]` of
    /// `]]`.
    Lnk(int, int),
    /// `[^...]` footnote reference.
    Fr(int, int),
    /// `<...>` autolink.
    Al(int, int),
    /// `*...*` emphasis.
    Em(int, int),
    /// `**...**` strong.
    Sg(int, int),
    /// `~~...~~` strikethrough.
    Sk(int, int),
}

/// The inline node an event stands for, over the run `text` at `base`.
pub open spec fn ev_matches(text: Seq<u8>, base: int, ev: InlineEv, node: Inline) -> bool {
    match ev {
        InlineEv::Txt(a, b) => node matches Inline::Text(t) && {
            &&& t.content@ == text.subrange(a, b)
            &&& t.span.start == base + a
            &&& t.span.end == base + b
        },
        InlineEv::Code(st, cl) => node matches Inline::CodeSpan(c) && {
            &&& c.content@ == text.subrange(st + 1, cl)
            &&& c.span.start == base + st
            &&& c.span.end == base + cl + 1
        },
        InlineEv::Lnk(st, cl) => node matches Inline::Link(l) && {
            let pipe = crate::bytes::find_byte_spec(text, st + 2, cl, 124);
            let label_end: int = if pipe < cl {
                pipe
            } else {
                cl
            };
            let url_start: int = if pipe < cl {
                pipe + 1
            } else {
                st + 2
            };
            &&& l.url@ == text.subrange(url_start, cl)
            &&& l.title is None
            &&& l.label@.len() == 1
            &&& (l.label@[0] matches Inline::Text(t) && {
                &&& t.content@ == text.subrange(st + 2, label_end)
                &&& t.span.start == base + st + 2
                &&& t.span.end == base + label_end
            })
            &&& l.span.start == base + st
            &&& l.span.end == base + cl + 2
        },
        InlineEv::Fr(st, cl) => node matches Inline::FootnoteRef(f) && {
            &&& f.label@ == text.subrange(st + 2, cl)
            &&& f.span.start == base + st
            &&& f.span.end == base + cl + 1
        },
        InlineEv::Al(st, cl) => node matches Inline::AutoLink(a) && {
            &&& a.url@ == text.subrange(st + 1, cl)
            &&& a.span.start == base + st
            &&& a.span.end == base + cl + 1
        },
        InlineEv::Em(st, cl) => node matches Inline::Emphasis(em) && {
            &&& em.span.start == base + st
            &&& em.span.end == base + cl + 1
            &&& inline_run_matches_text(em.content@, text.subrange(st + 1, cl), base + st + 1)
        },
        InlineEv::Sg(st, cl) => node matches Inline::Strong(sg) && {
            &&& sg.span.start == base + st
            &&& sg.span.end == base + cl + 2
            &&& inline_run_matches_text(sg.content@, text.subrange(st + 2, cl), base + st + 2)
        },
        InlineEv::Sk(st, cl) => node matches Inline::Strikethrough(sk) && {
            &&& sk.span.start == base + st
            &&& sk.span.end == base + cl + 2
            &&& inline_run_matches_text(sk.content@, text.subrange(st + 2, cl), base + st + 2)
        },
    }
}

/// The pending text run `[ts, x)` as an event, when non-empty.
pub open spec fn flush_ev(ts: int, x: int) -> Seq<InlineEv> {
    if ts < x {
        seq![InlineEv::Txt(ts, x)]
    } else {
        seq![]
    }
}

/// The events of the inline scan of `t` from scan position `pos` with the
/// pending text run starting at `ts`: at each trigger byte the targeted
/// parse runs exactly when its closing delimiter and boundary conditions
/// hold; a failed attempt leaves the byte in the text run.
pub open spec fn inline_events(t: Seq<u8>, pos: int, ts: int) -> Seq<InlineEv>
    decreases t.len() - pos,
    when 0 <= ts && 0 <= pos
    via inline_events_dec
{
    if pos >= t.len() {
        flush_ev(ts, t.len() as int)
    } else {
        let nt = next_trigger(t, pos);
        if nt >= t.len() {
            flush_ev(ts, t.len() as int)
        } else {
            let c = t[nt];
            if c == 92 {
                if nt + 1 < t.len() {
                    inline_events(t, nt + 2, ts)
                } else {
                    inline_events(t, nt + 1, ts)
                }
            } else if c == 96 {
                let cl = crate::bytes::find_byte_spec(t, nt + 1, t.len() as int, 96);
                if cl < t.len() {
                    flush_ev(ts, nt) + seq![InlineEv::Code(nt, cl)] + inline_events(
                        t,
                        cl + 1,
                        cl + 1,
                    )
                } else {
                    inline_events(t, nt + 1, ts)
                }
            } else if c == 91 {
                if nt + 1 < t.len() && t[nt + 1] == 91 {
                    let cl = link_close_from(t, nt + 2);
                    if cl < t.len() {
                        flush_ev(ts, nt) + seq![InlineEv::Lnk(nt, cl)] + inline_events(
                            t,
                            cl + 2,
                            cl + 2,
                        )
                    } else {
                        inline_events(t, nt + 1, ts)
                    }
                } else if nt + 1 < t.len() && t[nt + 1] == 94 {
                    let cl = crate::bytes::find_byte_spec(t, nt + 2, t.len() as int, 93);
                    if cl < t.len() {
                        flush_ev(ts, nt) + seq![InlineEv::Fr(nt, cl)] + inline_events(
                            t,
                            cl + 1,
                            cl + 1,
                        )
                    } else {
                        inline_events(t, nt + 1, ts)
                    }
                } else {
                    inline_events(t, nt + 1, ts)
                }
            } else if c == 42 {
                if nt + 1 < t.len() && t[nt + 1] == 42 {
                    let cl = pair_close_from(t, nt + 2, nt + 2, 42);
                    if nt + 2 < t.len() && t[nt + 2] != 32 && cl < t.len() {
                        flush_ev(ts, nt) + seq![InlineEv::Sg(nt, cl)] + inline_events(
                            t,
                            cl + 2,
                            cl + 2,
                        )
                    } else {
                        inline_events(t, nt + 1, ts)
                    }
                } else {
                    let cl = em_close_from(t, nt + 1, nt + 1);
                    if nt + 1 < t.len() && t[nt + 1] != 32 && cl < t.len() {
                        flush_ev(ts, nt) + seq![InlineEv::Em(nt, cl)] + inline_events(
                            t,
                            cl + 1,
                            cl + 1,
                        )
                    } else {
                        inline_events(t, nt + 1, ts)
                    }
                }
            } else if c == 126 {
                let cl = pair_close_from(t, nt + 2, nt + 2, 126);
                if nt + 1 < t.len() && t[nt + 1] == 126 && nt + 2 < t.len() && t[nt + 2] != 32
                    && cl < t.len() {
                    flush_ev(ts, nt) + seq![InlineEv::Sk(nt, cl)] + inline_events(
                        t,
                        cl + 2,
                        cl + 2,
                    )
                } else {
                    inline_events(t, nt + 1, ts)
                }
            } else if c == 60 {
                let cl = crate::bytes::find_byte_spec(t, nt + 1, t.len() as int, 62);
                let lo = nt + 1;
                if cl < t.len() && ((exists|q: int|
                    lo <= q && q + kw_scheme_sep().len() <= cl && matches_at(t, q, kw_scheme_sep()))
                    || (lo + kw_mailto().len() <= cl && matches_at(t, lo, kw_mailto()))) && (
                forall|j: int| lo <= j < cl ==> t[j] != 32 && t[j] != 10) {
                    flush_ev(ts, nt) + seq![InlineEv::Al(nt, cl)] + inline_events(
                        t,
                        cl + 1,
                        cl + 1,
                    )
                } else {
                    inline_events(t, nt + 1, ts)
                }
            } else {
                inline_events(t, nt + 1, ts)
            }
        }
    }
}

#[via_fn]
proof fn inline_events_dec(t: Seq<u8>, pos: int, ts: int) {
    if 0 <= pos && pos < t.len() {
        lemma_next_trigger_props(t, pos);
        let nt = next_trigger(t, pos);
        if nt < t.len() {
            crate::bytes::lemma_find_byte_bounds(t, nt + 1, t.len() as int, 96);
            crate::bytes::lemma_find_byte_bounds(t, nt + 1, t.len() as int, 62);
            if nt + 2 <= t.len() {
                crate::bytes::lemma_find_byte_bounds(t, nt + 2, t.len() as int, 93);
                lemma_link_close_props(t, nt + 2);
                lemma_pair_close_props(t, nt + 2, nt + 2, 42);
                lemma_pair_close_props(t, nt + 2, nt + 2, 126);
            }
            if nt + 1 <= t.len() {
                lemma_em_close_props(t, nt + 1, nt + 1);
            }
        }
    }
}

/// `nodes` is exactly one node per event, each as the event describes.
pub open spec fn evs_match(
    nodes: Seq<Inline>,
    text: Seq<u8>,
    base: int,
    evs: Seq<InlineEv>,
) -> bool {
    &&& nodes.len() == evs.len()
    &&& forall|k: int|
        0 <= k < nodes.len() ==> ev_matches(text, base, evs[k], #[trigger] nodes[k])
}

/// The node-list effect of a successful targeted parse: the pending text
/// run `[ts, pos)` was flushed as one verbatim `Text` node (when
/// non-empty) and exactly one construct node was appended after it.
pub open spec fn flushed_then_one(
    old_inl: Seq<Inline>,
    new_inl: Seq<Inline>,
    text: Seq<u8>,
    base: int,
    ts: int,
    pos: int,
) -> bool {
    &&& new_inl.len() == old_inl.len() + (if ts < pos {
        2int
    } else {
        1int
    })
    &&& new_inl.subrange(0, old_inl.len() as int) == old_inl
    &&& ts < pos ==> (new_inl[old_inl.len() as int] matches Inline::Text(t) && {
        &&& t.content@ == text.subrange(ts, pos)
        &&& t.span.start == base + ts
        &&& t.span.end == base + pos
    })
}

/// Parse the inline elements of a text run.
///
/// `base_offset` is the absolute position of `text` within the original
/// input; all produced spans are input-absolute.
pub fn parse_inlines(text: &[u8], base_offset: u32) -> (r: Vec<Inline>)
    requires
        base_offset + text@.len() <= u32::MAX,
    ensures
        inlines_in_range(r@, base_offset as int, base_offset + text@.len()),
        no_triggers(text@) && text@.len() > 0 ==> {
            &&& r@.len() == 1
            &&& r@[0] matches Inline::Text(t) && t.content@ == text@ && t.span.start == base_offset
                && t.span.end == base_offset + text@.len()
        },
        text@.len() == 0 ==> r@.len() == 0,
        inline_run_matches_text(r@, text@, base_offset as int),
        evs_match(r@, text@, base_offset as int, inline_events(text@, 0, 0)),
    decreases text@.len(), 4int,
{
    if text.len() == 0 {
        let r: Vec<Inline> = Vec::new();
        proof {
            assert(inline_events(text@, 0, 0) =~= Seq::<InlineEv>::empty());
        }
        return r;
    }
    let parser = InlineParser { text, base: base_offset };
    parser.parse()
}

/// Appending a flushed text run and one construct node extends the
/// event match accordingly.
pub proof fn lemma_step_emit(
    t: Seq<u8>,
    b: int,
    old_inl: Seq<Inline>,
    new_inl: Seq<Inline>,
    old_done: Seq<InlineEv>,
    ts0: int,
    nt: int,
    ev: InlineEv,
)
    requires
        flushed_then_one(old_inl, new_inl, t, b, ts0, nt),
        ev_matches(t, b, ev, new_inl.last()),
        evs_match(old_inl, t, b, old_done),
    ensures
        evs_match(new_inl, t, b, old_done + flush_ev(ts0, nt) + seq![ev]),
{
    let evs = old_done + flush_ev(ts0, nt) + seq![ev];
    assert forall|k: int| 0 <= k < new_inl.len() implies ev_matches(
        t,
        b,
        evs[k],
        #[trigger] new_inl[k],
    ) by {
        if k < old_inl.len() {
            assert(new_inl[k] == new_inl.subrange(0, old_inl.len() as int)[k]);
            assert(evs[k] == old_done[k]);
        } else if ts0 < nt && k == old_inl.len() {
            assert(evs[k] == flush_ev(ts0, nt)[0]);
        } else {
            assert(k == new_inl.len() - 1);
            assert(evs[k] == ev);
        }
    }
}

/// One inline scan over a text run at a fixed base offset.
struct InlineParser<'a> {
    /// The text run.
    text: &'a [u8],
    /// Absolute position of the run in the input.
    base: u32,
}

impl<'a> InlineParser<'a> {
    /// The parser's fixed bound: all absolute offsets fit in `u32`.
    spec fn wf(self) -> bool {
        self.base + self.text@.len() <= u32::MAX
    }

    /// The pending-text and emitted-node state is consistent: everything
    /// emitted so far is in range below `base + bound`.
    spec fn acc(self, inlines: Seq<Inline>, bound: int) -> bool {
        inlines_in_range(inlines, self.base as int, self.base + bound)
    }

    /// A plain-text node for `text[start..end]`.
    fn make_text(&self, start: usize, end: usize) -> (r: Inline)
        requires
            self.wf(),
            start <= end <= self.text@.len(),
        ensures
            inline_wf(r),
            inline_span(r).start == self.base + start,
            inline_span(r).end == self.base + end,
            r matches Inline::Text(t) && t.content@ == self.text@.subrange(
                start as int,
                end as int,
            ),
    {
        Inline::Text(
            Text {
                content: copy_range(self.text, start, end),
                span: Span::new(self.base + start as u32, self.base + end as u32),
            },
        )
    }

    /// Flush the pending text run `[text_start, pos)` as a `Text` node and
    /// move `text_start` up to `pos`.
    fn flush_text(&self, pos: usize, inlines: &mut Vec<Inline>, text_start: &mut usize)
        requires
            self.wf(),
            *old(text_start) <= pos <= self.text@.len(),
            self.acc(old(inlines)@, *old(text_start) as int),
        ensures
            *final(text_start) == pos,
            self.acc(final(inlines)@, pos as int),
            *old(text_start) < pos ==> {
                &&& final(inlines)@.len() == old(inlines)@.len() + 1
                &&& final(inlines)@.subrange(0, old(inlines)@.len() as int) == old(inlines)@
                &&& final(inlines)@.last() matches Inline::Text(t) && t.content@
                    == self.text@.subrange(*old(text_start) as int, pos as int) && t.span.start
                    == self.base + *old(text_start) && t.span.end == self.base + pos
            },
            *old(text_start) >= pos ==> final(inlines)@ == old(inlines)@,
    {
        if *text_start < pos {
            let node = self.make_text(*text_start, pos);
            inlines.push(node);
            proof {
                assert(inlines@.subrange(0, inlines@.len() - 1) =~= old(inlines)@);
            }
        }
        *text_start = pos;
    }

    /// The position of the next trigger byte at or after `pos`, or the text
    /// length when none remains.
    fn find_next_special(&self, pos: usize) -> (r: usize)
        requires
            pos <= self.text@.len(),
        ensures
            pos <= r <= self.text@.len(),
            forall|j: int| pos <= j < r ==> !is_trigger(#[trigger] self.text@[j]),
            r < self.text@.len() ==> is_trigger(self.text@[r as int]),
            r == next_trigger(self.text@, pos as int),
    {
        proof {
            lemma_next_trigger_props(self.text@, pos as int);
        }
        let common = memchr3_in(self.text, pos, self.text.len(), 42, 96, 91);
        let rare = memchr3_in(self.text, pos, self.text.len(), 92, 126, 60);
        let r: usize = match (common, rare) {
            (Some(a), Some(b)) => if a <= b {
                a
            } else {
                b
            },
            (Some(a), None) => a,
            (None, Some(b)) => b,
            (None, None) => self.text.len(),
        };
        proof {
            lemma_next_trigger_skip(self.text@, pos as int, r as int);
            if r < self.text@.len() {
                assert(next_trigger(self.text@, r as int) == r);
            }
        }
        r
    }

    /// A backslash escape: the backslash and the byte after it stay in the
    /// pending text run, and the next byte can not open a delimiter.
    fn try_parse_escape(&self, pos: &mut usize) -> (parsed: bool)
        requires
            self.wf(),
            *old(pos) < self.text@.len(),
        ensures
            parsed == (*old(pos) + 1 < self.text@.len()),
            if parsed {
                *final(pos) == *old(pos) + 2
            } else {
                *final(pos) == *old(pos)
            },
    {
        if *pos + 1 < self.text.len() {
            *pos += 2;
            true
        } else {
            false
        }
    }

    /// A code span: `` `...` `` with the content taken verbatim.
    #[verifier::rlimit(60)]
    fn try_parse_code_span(
        &self,
        pos: &mut usize,
        inlines: &mut Vec<Inline>,
        text_start: &mut usize,
    ) -> (parsed: bool)
        requires
            self.wf(),
            *old(text_start) <= *old(pos) < self.text@.len(),
            self.acc(old(inlines)@, *old(text_start) as int),
        ensures
            if parsed {
                &&& *old(pos) < *final(pos) <= self.text@.len()
                &&& *final(text_start) == *final(pos)
                &&& self.acc(final(inlines)@, *final(pos) as int)
            } else {
                &&& *final(pos) == *old(pos)
                &&& *final(text_start) == *old(text_start)
                &&& final(inlines)@ == old(inlines)@
            },
            parsed == (crate::bytes::find_byte_spec(
                self.text@,
                *old(pos) + 1,
                self.text@.len() as int,
                96,
            ) < self.text@.len()),
            parsed ==> ({
                let cl = crate::bytes::find_byte_spec(
                    self.text@,
                    *old(pos) + 1,
                    self.text@.len() as int,
                    96,
                );
                &&& *final(pos) == cl + 1
                &&& flushed_then_one(
                    old(inlines)@,
                    final(inlines)@,
                    self.text@,
                    self.base as int,
                    *old(text_start) as int,
                    *old(pos) as int,
                )
                &&& (final(inlines)@.last() matches Inline::CodeSpan(c) && {
                    &&& c.content@ == self.text@.subrange(*old(pos) + 1, cl)
                    &&& c.span.start == self.base + *old(pos)
                    &&& c.span.end == self.base + cl + 1
                })
            }),
    {
        let start = *pos;
        proof {
            crate::bytes::lemma_find_byte_bounds(
                self.text@,
                start + 1,
                self.text@.len() as int,
                96,
            );
        }
        match memchr_in(self.text, start + 1, self.text.len(), 96) {
            Some(close) => {
                proof {
                    assert(close as int == crate::bytes::find_byte_spec(
                        self.text@,
                        start + 1,
                        self.text@.len() as int,
                        96,
                    ));
                }
                self.flush_text(start, inlines, text_start);
                let node = Inline::CodeSpan(
                    CodeSpan {
                        content: copy_range(self.text, start + 1, close),
                        span: Span::new(self.base + start as u32, self.base + close as u32 + 1),
                    },
                );
                let ghost mid = inlines@;
                inlines.push(node);
                proof {
                    assert(inlines@.subrange(0, old(inlines)@.len() as int) =~= mid.subrange(
                        0,
                        old(inlines)@.len() as int,
                    ));
                }
                *pos = close + 1;
                *text_start = *pos;
                proof {
                    assert(mid.subrange(0, old(inlines)@.len() as int) =~= old(inlines)@);
                    if *old(text_start) < start {
                        assert(inlines@[old(inlines)@.len() as int] == mid[old(
                            inlines,
                        )@.len() as int]);
                    }
                    assert(flushed_then_one(
                        old(inlines)@,
                        inlines@,
                        self.text@,
                        self.base as int,
                        *old(text_start) as int,
                        start as int,
                    ));
                }
                true
            },
            None => false,
        }
    }

    /// Dispatch for `[`: a `[[label|url]]` link or a `[^label]` footnote
    /// reference.
    fn try_parse_bracket(
        &self,
        pos: &mut usize,
        inlines: &mut Vec<Inline>,
        text_start: &mut usize,
    ) -> (parsed: bool)
        requires
            self.wf(),
            *old(text_start) <= *old(pos) < self.text@.len(),
            self.acc(old(inlines)@, *old(text_start) as int),
        ensures
            if parsed {
                &&& *old(pos) < *final(pos) <= self.text@.len()
                &&& *final(text_start) == *final(pos)
                &&& self.acc(final(inlines)@, *final(pos) as int)
            } else {
                &&& *final(pos) == *old(pos)
                &&& *final(text_start) == *old(text_start)
                &&& final(inlines)@ == old(inlines)@
            },
            if *old(pos) + 1 < self.text@.len() && self.text@[*old(pos) + 1] == 91 {
                let cl = link_close_from(self.text@, *old(pos) + 2);
                &&& parsed == (cl < self.text@.len())
                &&& parsed ==> {
                    &&& *final(pos) == cl + 2
                    &&& flushed_then_one(
                        old(inlines)@,
                        final(inlines)@,
                        self.text@,
                        self.base as int,
                        *old(text_start) as int,
                        *old(pos) as int,
                    )
                    &&& ev_matches(
                        self.text@,
                        self.base as int,
                        InlineEv::Lnk(*old(pos) as int, cl),
                        final(inlines)@.last(),
                    )
                }
            } else if *old(pos) + 1 < self.text@.len() && self.text@[*old(pos) + 1] == 94 {
                let cl = crate::bytes::find_byte_spec(
                    self.text@,
                    *old(pos) + 2,
                    self.text@.len() as int,
                    93,
                );
                &&& parsed == (cl < self.text@.len())
                &&& parsed ==> {
                    &&& *final(pos) == cl + 1
                    &&& flushed_then_one(
                        old(inlines)@,
                        final(inlines)@,
                        self.text@,
                        self.base as int,
                        *old(text_start) as int,
                        *old(pos) as int,
                    )
                    &&& ev_matches(
                        self.text@,
                        self.base as int,
                        InlineEv::Fr(*old(pos) as int, cl),
                        final(inlines)@.last(),
                    )
                }
            } else {
                !parsed
            },
    {
        if *pos + 1 >= self.text.len() {
            return false;
        }
        let next = self.text[*pos + 1];
        if next == 91 {
            self.try_parse_link(pos, inlines, text_start)
        } else if next == 94 {
            self.try_parse_footnote_ref(pos, inlines, text_start)
        } else {
            false
        }
    }

    /// A `[[...]]` link. The content up to the first `|` is the label, the
    /// rest the URL; without a `|` the whole content is both.
    #[verifier::rlimit(60)]
    fn try_parse_link(
        &self,
        pos: &mut usize,
        inlines: &mut Vec<Inline>,
        text_start: &mut usize,
    ) -> (parsed: bool)
        requires
            self.wf(),
            *old(text_start) <= *old(pos) < self.text@.len(),
            *old(pos) + 1 < self.text@.len(),
            self.acc(old(inlines)@, *old(text_start) as int),
        ensures
            if parsed {
                &&& *old(pos) < *final(pos) <= self.text@.len()
                &&& *final(text_start) == *final(pos)
                &&& self.acc(final(inlines)@, *final(pos) as int)
            } else {
                &&& *final(pos) == *old(pos)
                &&& *final(text_start) == *old(text_start)
                &&& final(inlines)@ == old(inlines)@
            },
            parsed == (link_close_from(self.text@, *old(pos) + 2) < self.text@.len()),
            parsed ==> ({
                let cl = link_close_from(self.text@, *old(pos) + 2);
                let pipe = crate::bytes::find_byte_spec(self.text@, *old(pos) + 2, cl, 124);
                let label_end: int = if pipe < cl {
                    pipe
                } else {
                    cl
                };
                let url_start: int = if pipe < cl {
                    pipe + 1
                } else {
                    *old(pos) + 2
                };
                &&& *final(pos) == cl + 2
                &&& flushed_then_one(
                    old(inlines)@,
                    final(inlines)@,
                    self.text@,
                    self.base as int,
                    *old(text_start) as int,
                    *old(pos) as int,
                )
                &&& (final(inlines)@.last() matches Inline::Link(l) && {
                    &&& l.url@ == self.text@.subrange(url_start, cl)
                    &&& l.title is None
                    &&& l.label@.len() == 1
                    &&& (l.label@[0] matches Inline::Text(t) && {
                        &&& t.content@ == self.text@.subrange(*old(pos) + 2, label_end)
                        &&& t.span.start == self.base + *old(pos) + 2
                        &&& t.span.end == self.base + label_end
                    })
                    &&& l.span.start == self.base + *old(pos)
                    &&& l.span.end == self.base + cl + 2
                })
            }),
    {
        let start = *pos;
        let search_start = start + 2;
        proof {
            lemma_link_close_props(self.text@, search_start as int);
        }
        if search_start > self.text.len() {
            proof {
                assert(false);
            }
            return false;
        }
        let mut q = search_start;
        loop
            invariant
                self.wf(),
                search_start <= q,
                q <= self.text@.len(),
                search_start == start + 2,
                start + 2 <= self.text@.len(),
                *text_start == *old(text_start),
                *pos == *old(pos),
                *old(text_start) <= start < self.text@.len(),
                start == *old(pos),
                inlines@ == old(inlines)@,
                self.acc(inlines@, *text_start as int),
                link_close_from(self.text@, q as int) == link_close_from(
                    self.text@,
                    search_start as int,
                ),
            decreases self.text@.len() + 1 - q,
        {
            if q > self.text.len() {
                proof {
                    assert(false);
                }
                return false;
            }
            match memchr_in(self.text, q, self.text.len(), 93) {
                Some(p) => {
                    proof {
                        lemma_link_close_skip(self.text@, q as int, p as int);
                    }
                    if p + 1 < self.text.len() && self.text[p + 1] == 93 {
                        // Closing `]]` found at p.
                        proof {
                            assert(link_close_from(self.text@, p as int) == p);
                        }
                        self.flush_text(start, inlines, text_start);
                        let (label_end, url_start) = match crate::bytes::find_byte_in(
                            self.text,
                            search_start,
                            p,
                            124,
                        ) {
                            Some(pipe) => (pipe, pipe + 1),
                            None => (p, search_start),
                        };
                        proof {
                            crate::bytes::lemma_find_byte_bounds(
                                self.text@,
                                search_start as int,
                                p as int,
                                124,
                            );
                        }
                        let label_node = self.make_text(search_start, label_end);
                        let mut label: Vec<Inline> = Vec::new();
                        label.push(label_node);
                        let url = copy_range(self.text, url_start, p);
                        let span = Span::new(self.base + start as u32, self.base + p as u32 + 2);
                        proof {
                            assert(inlines_in_range(
                                label@,
                                self.base + search_start,
                                self.base + label_end,
                            ));
                        }
                        let node = Inline::Link(Link { label, url, title: None, span });
                        let ghost mid = inlines@;
                        inlines.push(node);
                        *pos = p + 2;
                        *text_start = *pos;
                        proof {
                            assert(mid.subrange(0, old(inlines)@.len() as int) =~= old(inlines)@);
                            assert(inlines@.subrange(0, old(inlines)@.len() as int)
                                =~= mid.subrange(0, old(inlines)@.len() as int));
                            if *old(text_start) < start {
                                assert(inlines@[old(inlines)@.len() as int] == mid[old(
                                    inlines,
                                )@.len() as int]);
                            }
                            assert(flushed_then_one(
                                old(inlines)@,
                                inlines@,
                                self.text@,
                                self.base as int,
                                *old(text_start) as int,
                                start as int,
                            ));
                        }
                        return true;
                    }
                    q = p + 1;
                },
                None => {
                    proof {
                        lemma_link_close_skip(
                            self.text@,
                            q as int,
                            self.text@.len() as int,
                        );
                    }
                    return false;
                },
            }
        }
    }

    /// A `[^label]` footnote reference.
    #[verifier::rlimit(60)]
    fn try_parse_footnote_ref(
        &self,
        pos: &mut usize,
        inlines: &mut Vec<Inline>,
        text_start: &mut usize,
    ) -> (parsed: bool)
        requires
            self.wf(),
            *old(text_start) <= *old(pos) < self.text@.len(),
            *old(pos) + 1 < self.text@.len(),
            self.acc(old(inlines)@, *old(text_start) as int),
        ensures
            if parsed {
                &&& *old(pos) < *final(pos) <= self.text@.len()
                &&& *final(text_start) == *final(pos)
                &&& self.acc(final(inlines)@, *final(pos) as int)
            } else {
                &&& *final(pos) == *old(pos)
                &&& *final(text_start) == *old(text_start)
                &&& final(inlines)@ == old(inlines)@
            },
            parsed == (crate::bytes::find_byte_spec(
                self.text@,
                *old(pos) + 2,
                self.text@.len() as int,
                93,
            ) < self.text@.len()),
            parsed ==> ({
                let cl = crate::bytes::find_byte_spec(
                    self.text@,
                    *old(pos) + 2,
                    self.text@.len() as int,
                    93,
                );
                &&& *final(pos) == cl + 1
                &&& flushed_then_one(
                    old(inlines)@,
                    final(inlines)@,
                    self.text@,
                    self.base as int,
                    *old(text_start) as int,
                    *old(pos) as int,
                )
                &&& (final(inlines)@.last() matches Inline::FootnoteRef(f) && {
                    &&& f.label@ == self.text@.subrange(*old(pos) + 2, cl)
                    &&& f.span.start == self.base + *old(pos)
                    &&& f.span.end == self.base + cl + 1
                })
            }),
    {
        let start = *pos;
        let label_start = start + 2;
        proof {
            crate::bytes::lemma_find_byte_bounds(
                self.text@,
                label_start as int,
                self.text@.len() as int,
                93,
            );
        }
        if label_start > self.text.len() {
            proof {
                assert(false);
            }
            return false;
        }
        match memchr_in(self.text, label_start, self.text.len(), 93) {
            Some(close) => {
                proof {
                    assert(close as int == crate::bytes::find_byte_spec(
                        self.text@,
                        label_start as int,
                        self.text@.len() as int,
                        93,
                    ));
                }
                self.flush_text(start, inlines, text_start);
                let node = Inline::FootnoteRef(
                    FootnoteRef {
                        label: copy_range(self.text, label_start, close),
                        span: Span::new(self.base + start as u32, self.base + close as u32 + 1),
                    },
                );
                let ghost mid = inlines@;
                inlines.push(node);
                *pos = close + 1;
                *text_start = *pos;
                proof {
                    assert(mid.subrange(0, old(inlines)@.len() as int) =~= old(inlines)@);
                    assert(inlines@.subrange(0, old(inlines)@.len() as int) =~= mid.subrange(
                        0,
                        old(inlines)@.len() as int,
                    ));
                    if *old(text_start) < start {
                        assert(inlines@[old(inlines)@.len() as int] == mid[old(
                            inlines,
                        )@.len() as int]);
                    }
                    assert(flushed_then_one(
                        old(inlines)@,
                        inlines@,
                        self.text@,
                        self.base as int,
                        *old(text_start) as int,
                        start as int,
                    ));
                }
                true
            },
            None => false,
        }
    }

    /// Dispatch for `*`: `**strong**` when doubled, `*emphasis*` otherwise.
    fn try_parse_asterisk(
        &self,
        pos: &mut usize,
        inlines: &mut Vec<Inline>,
        text_start: &mut usize,
    ) -> (parsed: bool)
        requires
            self.wf(),
            *old(text_start) <= *old(pos) < self.text@.len(),
            self.acc(old(inlines)@, *old(text_start) as int),
        ensures
            if parsed {
                &&& *old(pos) < *final(pos) <= self.text@.len()
                &&& *final(text_start) == *final(pos)
                &&& self.acc(final(inlines)@, *final(pos) as int)
            } else {
                &&& *final(pos) == *old(pos)
                &&& *final(text_start) == *old(text_start)
                &&& final(inlines)@ == old(inlines)@
            },
            if *old(pos) + 1 < self.text@.len() && self.text@[*old(pos) + 1] == 42 {
                let cl = pair_close_from(self.text@, *old(pos) + 2, *old(pos) + 2, 42);
                &&& parsed == (*old(pos) + 2 < self.text@.len() && self.text@[*old(pos) + 2] != 32
                    && cl < self.text@.len())
                &&& parsed ==> {
                    &&& *final(pos) == cl + 2
                    &&& flushed_then_one(
                        old(inlines)@,
                        final(inlines)@,
                        self.text@,
                        self.base as int,
                        *old(text_start) as int,
                        *old(pos) as int,
                    )
                    &&& ev_matches(
                        self.text@,
                        self.base as int,
                        InlineEv::Sg(*old(pos) as int, cl),
                        final(inlines)@.last(),
                    )
                }
            } else {
                let cl = em_close_from(self.text@, *old(pos) + 1, *old(pos) + 1);
                &&& parsed == (*old(pos) + 1 < self.text@.len() && self.text@[*old(pos) + 1] != 32
                    && cl < self.text@.len())
                &&& parsed ==> {
                    &&& *final(pos) == cl + 1
                    &&& flushed_then_one(
                        old(inlines)@,
                        final(inlines)@,
                        self.text@,
                        self.base as int,
                        *old(text_start) as int,
                        *old(pos) as int,
                    )
                    &&& ev_matches(
                        self.text@,
                        self.base as int,
                        InlineEv::Em(*old(pos) as int, cl),
                        final(inlines)@.last(),
                    )
                }
            },
        decreases self.text@.len(), 2int,
    {
        if *pos + 1 < self.text.len() && self.text[*pos + 1] == 42 {
            self.try_parse_strong(pos, inlines, text_start)
        } else {
            self.try_parse_emphasis(pos, inlines, text_start)
        }
    }

    /// `**strong**`: the byte after the opener and the byte before the
    /// closer must not be spaces; the inner run is parsed recursively.
    #[verifier::rlimit(80)]
    fn try_parse_strong(
        &self,
        pos: &mut usize,
        inlines: &mut Vec<Inline>,
        text_start: &mut usize,
    ) -> (parsed: bool)
        requires
            self.wf(),
            *old(text_start) <= *old(pos) < self.text@.len(),
            self.acc(old(inlines)@, *old(text_start) as int),
        ensures
            if parsed {
                &&& *old(pos) < *final(pos) <= self.text@.len()
                &&& *final(text_start) == *final(pos)
                &&& self.acc(final(inlines)@, *final(pos) as int)
            } else {
                &&& *final(pos) == *old(pos)
                &&& *final(text_start) == *old(text_start)
                &&& final(inlines)@ == old(inlines)@
            },
            parsed == (*old(pos) + 2 < self.text@.len() && self.text@[*old(pos) + 2] != 32
                && pair_close_from(self.text@, *old(pos) + 2, *old(pos) + 2, 42)
                < self.text@.len()),
            parsed ==> ({
                let cs = *old(pos) + 2;
                let cl = pair_close_from(self.text@, cs, cs, 42);
                &&& *final(pos) == cl + 2
                &&& flushed_then_one(
                    old(inlines)@,
                    final(inlines)@,
                    self.text@,
                    self.base as int,
                    *old(text_start) as int,
                    *old(pos) as int,
                )
                &&& (final(inlines)@.last() matches Inline::Strong(st) && {
                    &&& st.span.start == self.base + *old(pos)
                    &&& st.span.end == self.base + cl + 2
                    &&& inline_run_matches_text(
                        st.content@,
                        self.text@.subrange(cs, cl),
                        self.base + cs,
                    )
                })
            }),
        decreases self.text@.len(), 1int,
    {
        let start = *pos;
        proof {
            if start + 2 <= self.text@.len() {
                lemma_pair_close_props(self.text@, start + 2, start + 2, 42);
            }
        }
        if self.text.len() - start <= 2 {
            return false;
        }
        let content_start = start + 2;
        if self.text[content_start] == 32 {
            return false;
        }
        let mut q = content_start;
        loop
            invariant
                self.wf(),
                content_start == start + 2,
                content_start <= q <= self.text@.len(),
                content_start < self.text@.len(),
                self.text@[content_start as int] != 32,
                *text_start == *old(text_start),
                *pos == *old(pos),
                *old(text_start) <= start < self.text@.len(),
                start == *old(pos),
                inlines@ == old(inlines)@,
                self.acc(inlines@, *text_start as int),
                pair_close_from(self.text@, q as int, content_start as int, 42)
                    == pair_close_from(self.text@, content_start as int, content_start as int, 42),
            decreases self.text@.len() - q,
        {
            match memchr_in(self.text, q, self.text.len(), 42) {
                Some(p) => {
                    proof {
                        lemma_pair_close_skip(
                            self.text@,
                            q as int,
                            p as int,
                            content_start as int,
                            42,
                        );
                    }
                    if p + 1 < self.text.len() && self.text[p + 1] == 42 && p > content_start
                        && self.text[p - 1] != 32 {
                        proof {
                            assert(pair_close_from(
                                self.text@,
                                p as int,
                                content_start as int,
                                42,
                            ) == p);
                        }
                        self.flush_text(start, inlines, text_start);
                        let content_slice = vstd::slice::slice_subrange(
                            self.text,
                            content_start,
                            p,
                        );
                        let inner = parse_inlines(content_slice, self.base + content_start as u32);
                        let span = Span::new(self.base + start as u32, self.base + p as u32 + 2);
                        let node = Inline::Strong(Strong { content: inner, span });
                        let ghost mid = inlines@;
                        inlines.push(node);
                        *pos = p + 2;
                        *text_start = *pos;
                        proof {
                            assert(mid.subrange(0, old(inlines)@.len() as int) =~= old(inlines)@);
                            assert(inlines@.subrange(0, old(inlines)@.len() as int)
                                =~= mid.subrange(0, old(inlines)@.len() as int));
                            if *old(text_start) < start {
                                assert(inlines@[old(inlines)@.len() as int] == mid[old(
                                    inlines,
                                )@.len() as int]);
                            }
                            assert(flushed_then_one(
                                old(inlines)@,
                                inlines@,
                                self.text@,
                                self.base as int,
                                *old(text_start) as int,
                                start as int,
                            ));
                        }
                        return true;
                    }
                    q = p + 1;
                },
                None => {
                    proof {
                        lemma_pair_close_skip(
                            self.text@,
                            q as int,
                            self.text@.len() as int,
                            content_start as int,
                            42,
                        );
                    }
                    return false;
                },
            }
        }
    }

    /// `*emphasis*`: as strong with a single `*`, skipping over `**` pairs
    /// while searching for the closer.
    #[verifier::rlimit(80)]
    fn try_parse_emphasis(
        &self,
        pos: &mut usize,
        inlines: &mut Vec<Inline>,
        text_start: &mut usize,
    ) -> (parsed: bool)
        requires
            self.wf(),
            *old(text_start) <= *old(pos) < self.text@.len(),
            self.acc(old(inlines)@, *old(text_start) as int),
        ensures
            if parsed {
                &&& *old(pos) < *final(pos) <= self.text@.len()
                &&& *final(text_start) == *final(pos)
                &&& self.acc(final(inlines)@, *final(pos) as int)
            } else {
                &&& *final(pos) == *old(pos)
                &&& *final(text_start) == *old(text_start)
                &&& final(inlines)@ == old(inlines)@
            },
            parsed == (*old(pos) + 1 < self.text@.len() && self.text@[*old(pos) + 1] != 32
                && em_close_from(self.text@, *old(pos) + 1, *old(pos) + 1) < self.text@.len()),
            parsed ==> ({
                let cs = *old(pos) + 1;
                let cl = em_close_from(self.text@, cs, cs);
                &&& *final(pos) == cl + 1
                &&& flushed_then_one(
                    old(inlines)@,
                    final(inlines)@,
                    self.text@,
                    self.base as int,
                    *old(text_start) as int,
                    *old(pos) as int,
                )
                &&& (final(inlines)@.last() matches Inline::Emphasis(em) && {
                    &&& em.span.start == self.base + *old(pos)
                    &&& em.span.end == self.base + cl + 1
                    &&& inline_run_matches_text(
                        em.content@,
                        self.text@.subrange(cs, cl),
                        self.base + cs,
                    )
                })
            }),
        decreases self.text@.len(), 1int,
    {
        let start = *pos;
        let content_start = start + 1;
        proof {
            if content_start as int <= self.text@.len() {
                lemma_em_close_props(self.text@, content_start as int, content_start as int);
            }
        }
        if content_start >= self.text.len() || self.text[content_start] == 32 {
            return false;
        }
        let mut q = content_start;
        loop
            invariant
                self.wf(),
                content_start == start + 1,
                content_start <= q <= self.text@.len(),
                content_start < self.text@.len(),
                self.text@[content_start as int] != 32,
                *text_start == *old(text_start),
                *pos == *old(pos),
                *old(text_start) <= start < self.text@.len(),
                start == *old(pos),
                inlines@ == old(inlines)@,
                self.acc(inlines@, *text_start as int),
                em_close_from(self.text@, q as int, content_start as int) == em_close_from(
                    self.text@,
                    content_start as int,
                    content_start as int,
                ),
            decreases self.text@.len() - q,
        {
            match memchr_in(self.text, q, self.text.len(), 42) {
                Some(p) => {
                    proof {
                        lemma_em_close_skip(self.text@, q as int, p as int, content_start as int);
                    }
                    if p + 1 < self.text.len() && self.text[p + 1] == 42 {
                        // A `**` pair inside: skip over it.
                        if p + 2 > self.text.len() {
                            proof {
                                assert(false);
                            }
                            return false;
                        }
                        q = p + 2;
                    } else if p > content_start && self.text[p - 1] != 32 {
                        proof {
                            assert(em_close_from(self.text@, p as int, content_start as int)
                                == p);
                        }
                        self.flush_text(start, inlines, text_start);
                        let content_slice = vstd::slice::slice_subrange(
                            self.text,
                            content_start,
                            p,
                        );
                        let inner = parse_inlines(content_slice, self.base + content_start as u32);
                        let span = Span::new(self.base + start as u32, self.base + p as u32 + 1);
                        let node = Inline::Emphasis(Emphasis { content: inner, span });
                        let ghost mid = inlines@;
                        inlines.push(node);
                        *pos = p + 1;
                        *text_start = *pos;
                        proof {
                            assert(mid.subrange(0, old(inlines)@.len() as int) =~= old(inlines)@);
                            assert(inlines@.subrange(0, old(inlines)@.len() as int)
                                =~= mid.subrange(0, old(inlines)@.len() as int));
                            if *old(text_start) < start {
                                assert(inlines@[old(inlines)@.len() as int] == mid[old(
                                    inlines,
                                )@.len() as int]);
                            }
                            assert(flushed_then_one(
                                old(inlines)@,
                                inlines@,
                                self.text@,
                                self.base as int,
                                *old(text_start) as int,
                                start as int,
                            ));
                        }
                        return true;
                    } else {
                        q = p + 1;
                    }
                },
                None => {
                    proof {
                        lemma_em_close_skip(
                            self.text@,
                            q as int,
                            self.text@.len() as int,
                            content_start as int,
                        );
                    }
                    return false;
                },
            }
        }
    }

    /// `~~strikethrough~~`, with the same boundary rules as strong.
    #[verifier::rlimit(80)]
    fn try_parse_tilde(
        &self,
        pos: &mut usize,
        inlines: &mut Vec<Inline>,
        text_start: &mut usize,
    ) -> (parsed: bool)
        requires
            self.wf(),
            *old(text_start) <= *old(pos) < self.text@.len(),
            self.acc(old(inlines)@, *old(text_start) as int),
        ensures
            if parsed {
                &&& *old(pos) < *final(pos) <= self.text@.len()
                &&& *final(text_start) == *final(pos)
                &&& self.acc(final(inlines)@, *final(pos) as int)
            } else {
                &&& *final(pos) == *old(pos)
                &&& *final(text_start) == *old(text_start)
                &&& final(inlines)@ == old(inlines)@
            },
            parsed == (*old(pos) + 1 < self.text@.len() && self.text@[*old(pos) + 1] == 126
                && *old(pos) + 2 < self.text@.len() && self.text@[*old(pos) + 2] != 32
                && pair_close_from(self.text@, *old(pos) + 2, *old(pos) + 2, 126)
                < self.text@.len()),
            parsed ==> ({
                let cs = *old(pos) + 2;
                let cl = pair_close_from(self.text@, cs, cs, 126);
                &&& *final(pos) == cl + 2
                &&& flushed_then_one(
                    old(inlines)@,
                    final(inlines)@,
                    self.text@,
                    self.base as int,
                    *old(text_start) as int,
                    *old(pos) as int,
                )
                &&& (final(inlines)@.last() matches Inline::Strikethrough(sk) && {
                    &&& sk.span.start == self.base + *old(pos)
                    &&& sk.span.end == self.base + cl + 2
                    &&& inline_run_matches_text(
                        sk.content@,
                        self.text@.subrange(cs, cl),
                        self.base + cs,
                    )
                })
            }),
        decreases self.text@.len(), 1int,
    {
        let start = *pos;
        proof {
            if start + 2 <= self.text@.len() {
                lemma_pair_close_props(self.text@, start + 2, start + 2, 126);
            }
        }
        if start + 1 >= self.text.len() || self.text[start + 1] != 126 {
            return false;
        }
        let content_start = start + 2;
        if content_start >= self.text.len() || self.text[content_start] == 32 {
            return false;
        }
        let mut q = content_start;
        loop
            invariant
                self.wf(),
                content_start == start + 2,
                content_start <= q <= self.text@.len(),
                content_start < self.text@.len(),
                self.text@[content_start as int] != 32,
                self.text@[start + 1] == 126,
                *text_start == *old(text_start),
                *pos == *old(pos),
                *old(text_start) <= start < self.text@.len(),
                start == *old(pos),
                inlines@ == old(inlines)@,
                self.acc(inlines@, *text_start as int),
                pair_close_from(self.text@, q as int, content_start as int, 126)
                    == pair_close_from(
                    self.text@,
                    content_start as int,
                    content_start as int,
                    126,
                ),
            decreases self.text@.len() - q,
        {
            match memchr_in(self.text, q, self.text.len(), 126) {
                Some(p) => {
                    proof {
                        lemma_pair_close_skip(
                            self.text@,
                            q as int,
                            p as int,
                            content_start as int,
                            126,
                        );
                    }
                    if p + 1 < self.text.len() && self.text[p + 1] == 126 && p > content_start
                        && self.text[p - 1] != 32 {
                        proof {
                            assert(pair_close_from(
                                self.text@,
                                p as int,
                                content_start as int,
                                126,
                            ) == p);
                        }
                        self.flush_text(start, inlines, text_start);
                        let content_slice = vstd::slice::slice_subrange(
                            self.text,
                            content_start,
                            p,
                        );
                        let inner = parse_inlines(content_slice, self.base + content_start as u32);
                        let span = Span::new(self.base + start as u32, self.base + p as u32 + 2);
                        let node = Inline::Strikethrough(Strikethrough { content: inner, span });
                        let ghost mid = inlines@;
                        inlines.push(node);
                        *pos = p + 2;
                        *text_start = *pos;
                        proof {
                            assert(mid.subrange(0, old(inlines)@.len() as int) =~= old(inlines)@);
                            assert(inlines@.subrange(0, old(inlines)@.len() as int)
                                =~= mid.subrange(0, old(inlines)@.len() as int));
                            if *old(text_start) < start {
                                assert(inlines@[old(inlines)@.len() as int] == mid[old(
                                    inlines,
                                )@.len() as int]);
                            }
                            assert(flushed_then_one(
                                old(inlines)@,
                                inlines@,
                                self.text@,
                                self.base as int,
                                *old(text_start) as int,
                                start as int,
                            ));
                        }
                        return true;
                    }
                    q = p + 1;
                },
                None => {
                    proof {
                        lemma_pair_close_skip(
                            self.text@,
                            q as int,
                            self.text@.len() as int,
                            content_start as int,
                            126,
                        );
                    }
                    return false;
                },
            }
        }
    }

    /// `<url>`: the URL must contain `://` or begin with `mailto:`, and
    /// hold no space or newline.
    #[verifier::rlimit(100)]
    fn try_parse_autolink(
        &self,
        pos: &mut usize,
        inlines: &mut Vec<Inline>,
        text_start: &mut usize,
    ) -> (parsed: bool)
        requires
            self.wf(),
            *old(text_start) <= *old(pos) < self.text@.len(),
            self.acc(old(inlines)@, *old(text_start) as int),
        ensures
            if parsed {
                &&& *old(pos) < *final(pos) <= self.text@.len()
                &&& *final(text_start) == *final(pos)
                &&& self.acc(final(inlines)@, *final(pos) as int)
            } else {
                &&& *final(pos) == *old(pos)
                &&& *final(text_start) == *old(text_start)
                &&& final(inlines)@ == old(inlines)@
            },
            parsed == ({
                let cl = crate::bytes::find_byte_spec(
                    self.text@,
                    *old(pos) + 1,
                    self.text@.len() as int,
                    62,
                );
                let lo = *old(pos) + 1;
                &&& cl < self.text@.len()
                &&& ((exists|q: int|
                    lo <= q && q + kw_scheme_sep().len() <= cl && matches_at(
                        self.text@,
                        q,
                        kw_scheme_sep(),
                    )) || (lo + kw_mailto().len() <= cl && matches_at(self.text@, lo, kw_mailto())))
                &&& forall|j: int| lo <= j < cl ==> self.text@[j] != 32 && self.text@[j] != 10
            }),
            parsed ==> ({
                let cl = crate::bytes::find_byte_spec(
                    self.text@,
                    *old(pos) + 1,
                    self.text@.len() as int,
                    62,
                );
                &&& *final(pos) == cl + 1
                &&& flushed_then_one(
                    old(inlines)@,
                    final(inlines)@,
                    self.text@,
                    self.base as int,
                    *old(text_start) as int,
                    *old(pos) as int,
                )
                &&& (final(inlines)@.last() matches Inline::AutoLink(a) && {
                    &&& a.url@ == self.text@.subrange(*old(pos) + 1, cl)
                    &&& a.span.start == self.base + *old(pos)
                    &&& a.span.end == self.base + cl + 1
                })
            }),
    {
        let start = *pos;
        proof {
            crate::bytes::lemma_find_byte_bounds(
                self.text@,
                start + 1,
                self.text@.len() as int,
                62,
            );
        }
        match memchr_in(self.text, start + 1, self.text.len(), 62) {
            Some(close) => {
                proof {
                    assert(close as int == crate::bytes::find_byte_spec(
                        self.text@,
                        start + 1,
                        self.text@.len() as int,
                        62,
                    ));
                }
                proof {
                    crate::bytes::lemma_find_byte_bounds(self.text@, start + 1, close as int, 32);
                    crate::bytes::lemma_find_byte_bounds(self.text@, start + 1, close as int, 10);
                }
                let scheme = kw_scheme_sep_v();
                let mailto = kw_mailto_v();
                let looks_like_url = contains_sub(self.text, start + 1, close, scheme.as_slice())
                    || starts_with_at(self.text, start + 1, close, mailto.as_slice());
                if !looks_like_url {
                    return false;
                }
                let has_space = crate::bytes::find_byte_in(self.text, start + 1, close, 32);
                if has_space.is_some() {
                    return false;
                }
                let has_newline = crate::bytes::find_byte_in(self.text, start + 1, close, 10);
                if has_newline.is_some() {
                    return false;
                }
                self.flush_text(start, inlines, text_start);
                let node = Inline::AutoLink(
                    AutoLink {
                        url: copy_range(self.text, start + 1, close),
                        span: Span::new(self.base + start as u32, self.base + close as u32 + 1),
                    },
                );
                let ghost mid = inlines@;
                inlines.push(node);
                *pos = close + 1;
                *text_start = *pos;
                proof {
                    assert(mid.subrange(0, old(inlines)@.len() as int) =~= old(inlines)@);
                    assert(inlines@.subrange(0, old(inlines)@.len() as int) =~= mid.subrange(
                        0,
                        old(inlines)@.len() as int,
                    ));
                    if *old(text_start) < start {
                        assert(inlines@[old(inlines)@.len() as int] == mid[old(
                            inlines,
                        )@.len() as int]);
                    }
                    assert(flushed_then_one(
                        old(inlines)@,
                        inlines@,
                        self.text@,
                        self.base as int,
                        *old(text_start) as int,
                        start as int,
                    ));
                }
                true
            },
            None => false,
        }
    }

    /// The main scan: jump to each trigger byte, attempt the targeted
    /// parse, and flush the trailing text run at the end.
    #[verifier::rlimit(100)]
    #[verifier::spinoff_prover]
    fn parse(&self) -> (r: Vec<Inline>)
        requires
            self.wf(),
        ensures
            inlines_in_range(r@, self.base as int, self.base + self.text@.len()),
            no_triggers(self.text@) && self.text@.len() > 0 ==> {
                &&& r@.len() == 1
                &&& r@[0] matches Inline::Text(t) && t.content@ == self.text@ && t.span.start
                    == self.base && t.span.end == self.base + self.text@.len()
            },
            evs_match(r@, self.text@, self.base as int, inline_events(self.text@, 0, 0)),
        decreases self.text@.len(), 3int,
    {
        let ghost t = self.text@;
        let ghost b = self.base as int;
        let mut inlines: Vec<Inline> = Vec::new();
        let mut text_start: usize = 0;
        let mut pos: usize = 0;
        let ghost mut done: Seq<InlineEv> = Seq::empty();
        proof {
            assert(Seq::<InlineEv>::empty() + inline_events(t, 0, 0) =~= inline_events(t, 0, 0));
        }
        while pos < self.text.len()
            invariant_except_break
                inline_events(t, 0, 0) == done + inline_events(t, pos as int, text_start as int),
            invariant
                self.wf(),
                t == self.text@,
                b == self.base as int,
                text_start <= pos <= self.text@.len(),
                self.acc(inlines@, text_start as int),
                no_triggers(self.text@) ==> (inlines@.len() == 0 && text_start == 0),
                evs_match(inlines@, t, b, done),
            ensures
                self.wf(),
                t == self.text@,
                b == self.base as int,
                text_start <= self.text@.len(),
                self.acc(inlines@, text_start as int),
                no_triggers(self.text@) ==> (inlines@.len() == 0 && text_start == 0),
                evs_match(inlines@, t, b, done),
                inline_events(t, 0, 0) == done + flush_ev(text_start as int, t.len() as int),
            decreases self.text@.len() - pos,
        {
            let ghost pos0 = pos as int;
            let ghost ts0 = text_start as int;
            let ghost pre_inl = inlines@;
            let ghost pre_done = done;
            let next_special = self.find_next_special(pos);
            if next_special >= self.text.len() {
                proof {
                    assert(inline_events(t, pos0, ts0) == flush_ev(ts0, t.len() as int));
                }
                break;
            }
            let ghost nt = next_special as int;
            pos = next_special;
            let c = self.text[pos];
            let parsed = if c == 92 {
                self.try_parse_escape(&mut pos)
            } else if c == 96 {
                self.try_parse_code_span(&mut pos, &mut inlines, &mut text_start)
            } else if c == 91 {
                self.try_parse_bracket(&mut pos, &mut inlines, &mut text_start)
            } else if c == 42 {
                self.try_parse_asterisk(&mut pos, &mut inlines, &mut text_start)
            } else if c == 126 {
                self.try_parse_tilde(&mut pos, &mut inlines, &mut text_start)
            } else if c == 60 {
                self.try_parse_autolink(&mut pos, &mut inlines, &mut text_start)
            } else {
                false
            };
            if !parsed {
                pos += 1;
            }
            proof {
                assert(nt == next_trigger(t, pos0));
                if !parsed {
                    assert(inline_events(t, pos0, ts0) == inline_events(t, nt + 1, ts0));
                } else if c == 92 {
                    assert(inline_events(t, pos0, ts0) == inline_events(t, nt + 2, ts0));
                } else {
                    let ev: InlineEv = if c == 96 {
                        InlineEv::Code(nt, crate::bytes::find_byte_spec(t, nt + 1, t.len() as int, 96))
                    } else if c == 91 && t[nt + 1] == 91 {
                        InlineEv::Lnk(nt, link_close_from(t, nt + 2))
                    } else if c == 91 {
                        InlineEv::Fr(nt, crate::bytes::find_byte_spec(t, nt + 2, t.len() as int, 93))
                    } else if c == 42 && nt + 1 < t.len() && t[nt + 1] == 42 {
                        InlineEv::Sg(nt, pair_close_from(t, nt + 2, nt + 2, 42))
                    } else if c == 42 {
                        InlineEv::Em(nt, em_close_from(t, nt + 1, nt + 1))
                    } else if c == 126 {
                        InlineEv::Sk(nt, pair_close_from(t, nt + 2, nt + 2, 126))
                    } else {
                        InlineEv::Al(nt, crate::bytes::find_byte_spec(t, nt + 1, t.len() as int, 62))
                    };
                    assert(ev_matches(t, b, ev, inlines@.last()));
                    assert(inline_events(t, pos0, ts0) == flush_ev(ts0, nt) + seq![ev]
                        + inline_events(t, pos as int, pos as int));
                    lemma_step_emit(t, b, pre_inl, inlines@, pre_done, ts0, nt, ev);
                    done = pre_done + flush_ev(ts0, nt) + seq![ev];
                    assert(pre_done + (flush_ev(ts0, nt) + seq![ev] + inline_events(
                        t,
                        pos as int,
                        pos as int,
                    )) =~= done + inline_events(t, pos as int, pos as int));
                }
            }
        }
        proof {
            if no_triggers(self.text@) && self.text@.len() > 0 {
                assert(text_start == 0);
            }
        }
        let ghost pre_inl = inlines@;
        let ghost ts_fin = text_start as int;
        self.flush_text(self.text.len(), &mut inlines, &mut text_start);
        proof {
            if no_triggers(self.text@) && self.text@.len() > 0 {
                assert(inlines@.len() == 1);
                assert(self.text@.subrange(0, self.text@.len() as int) =~= self.text@);
            }
            let evs = done + flush_ev(ts_fin, t.len() as int);
            assert(evs_match(inlines@, t, b, evs)) by {
                assert forall|k: int| 0 <= k < inlines@.len() implies ev_matches(
                    t,
                    b,
                    evs[k],
                    #[trigger] inlines@[k],
                ) by {
                    if k < pre_inl.len() {
                        assert(inlines@[k] == inlines@.subrange(0, pre_inl.len() as int)[k]);
                        assert(evs[k] == done[k]);
                    } else {
                        assert(ts_fin < t.len());
                        assert(evs[k] == flush_ev(ts_fin, t.len() as int)[0]);
                    }
                }
            }
            assert(inline_events(t, 0, 0) =~= evs);
        }
        inlines
    }
}

} // verus!
