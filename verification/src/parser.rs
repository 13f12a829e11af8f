//! The block parser and the parser facade.
//!
//! The parser drives the lexer line by line. After leading blank lines it
//! recognizes an optional `@profile` directive, an optional `@modules`
//! directive and an optional `--- meta` block, then parses blocks until the
//! end of input. Errors are recorded in a collector and never abort the
//! parse.
//!
//! Every parse step is proved to make progress through the input and to
//! produce well-formed nodes whose spans lie between the cursor positions
//! before and after the step; from this the document-level span invariants
//! follow.

use vstd::prelude::*;

use crate::bytes::{
    copy_range, find_byte_in, find_byte_spec, is_ws_byte, matches_at, range_eq, starts_with_at,
    trim_bounds, trim_range, ws_only,
};
use crate::error::{err_equiv, ParseError, ParseErrors};
use crate::ast::{
    AttrValue, Block, Callout, CodeBlock, Document, Figure, FootnoteDef, Footnotes, Heading,
    HtmlBlock, List, ListItem, ListKind, MathBlock, Metadata, Module, Paragraph, Profile,
    Quote, RawBlock, Table, TableCell, TableRow, block_span, block_wf, blocks_in_range,
    cells_in_range, defs_in_range, document_wf, items_in_range, lemma_blocks_in_range_wf,
    lemma_cells_in_range_wf, lemma_defs_in_range_wf, lemma_inlines_in_range_wf,
    lemma_items_in_range_wf, lemma_rows_in_range_wf, rows_in_range, span_ordered,
};
use crate::tokens::{
    kw_alt, kw_alt_v, kw_at_modules, kw_at_modules_v, kw_at_profile, kw_at_profile_v,
    kw_autolink, kw_autolink_v, kw_backticks, kw_backticks_v, kw_block, kw_block_v, kw_callout,
    kw_callout_v, kw_caption, kw_caption_v, kw_colons, kw_colons_list_v, kw_colons_table_v,
    kw_colons_v, kw_dash_item, kw_dash_item_v, kw_dashes, kw_dashes_v, kw_display, kw_display_v,
    kw_false_lit, kw_false_lit_v, kw_figure, kw_figure_v, kw_footdef_sep, kw_footdef_sep_v,
    kw_footnotes, kw_footnotes_v, kw_footref_open, kw_footref_open_v, kw_html, kw_html_block_v,
    kw_html_v, kw_list, kw_list_item_v, kw_list_v, kw_litedoc, kw_litedoc_v, kw_math, kw_math_v, kw_md,
    kw_md_strict, kw_md_strict_v, kw_md_v, kw_meta, kw_meta_rule_v, kw_meta_v, kw_note,
    kw_note_v, kw_ordered, kw_ordered_v, kw_pipe_cont, kw_pipe_cont_v, kw_quote_v, kw_src, kw_src_v, kw_start_eq, kw_start_eq_v,
    kw_strikethrough, kw_strikethrough_v, kw_table_v, kw_tables, kw_tables_v, kw_tasks,
    kw_tasks_v, kw_title, kw_title_v, kw_true_lit, kw_true_lit_v, kw_type_name, kw_type_name_v,
    kw_unordered, kw_unordered_v,
};
use crate::lexer::{
    lemma_line_shape, lemma_skip_blanks_bounds, lemma_ws_only_skip_blanks, line_text,
    line_text_end, line_wf, next_line_start, skip_blanks, Lexer, Line,
};
use crate::span::Span;
use crate::tokens::{kw_colons_list, kw_colons_table, kw_html_block, kw_list_item, kw_meta_rule, kw_msg_invalid, kw_msg_unclosed, kw_msg_unknown, kw_quote, kw_table};

verus! {

/// The outcome of a parse with recovery: the (possibly partial) document
/// and every error recorded along the way.
#[derive(Debug)]
pub struct ParseResult {
    /// The parsed document.
    pub document: Document,
    /// Errors encountered during parsing.
    pub errors: ParseErrors,
}

impl ParseResult {
    /// Whether parsing completed without recording any error.
    pub fn is_ok(&self) -> (r: bool)
        ensures
            r == (self.errors@.len() == 0),
    {
        self.errors.is_empty()
    }

    /// Whether any recorded error is non-recoverable.
    pub fn has_fatal_errors(&self) -> (r: bool)
        ensures
            r == exists|i: int|
                0 <= i < self.errors@.len() && !(#[trigger] self.errors@[i]).recoverable,
    {
        self.errors.has_fatal()
    }
}

/// The parser: a configured profile, the modules declared by the last
/// parse, the collected errors, and the recovery flag.
pub struct Parser {
    profile: Profile,
    modules: Vec<Module>,
    errors: ParseErrors,
    recover_on_error: bool,
}

impl Parser {
    /// The configured default profile.
    pub closed spec fn spec_profile(self) -> Profile {
        self.profile
    }

    /// The modules declared by the last parse.
    pub closed spec fn spec_modules(self) -> Seq<Module> {
        self.modules@
    }

    /// The errors collected so far.
    pub closed spec fn spec_errors(self) -> Seq<ParseError> {
        self.errors@
    }

    /// Whether recovery mode is on.
    pub closed spec fn spec_recover(self) -> bool {
        self.recover_on_error
    }

    /// A new parser with the given default profile; recovery is on.
    pub fn new(profile: Profile) -> (r: Parser)
        ensures
            r.spec_profile() == profile,
            r.spec_modules() == Seq::<Module>::empty(),
            r.spec_errors() == Seq::<ParseError>::empty(),
            r.spec_recover(),
    {
        Parser { profile, modules: Vec::new(), errors: ParseErrors::new(), recover_on_error: true }
    }

    /// The same parser with recovery switched on or off.
    pub fn with_recovery(self, recover: bool) -> (r: Parser)
        ensures
            r.spec_profile() == self.spec_profile(),
            r.spec_modules() == self.spec_modules(),
            r.spec_errors() == self.spec_errors(),
            r.spec_recover() == recover,
    {
        Parser { recover_on_error: recover, ..self }
    }

    /// Record an error.
    fn record_error(&mut self, error: ParseError)
        ensures
            final(self).spec_errors() == old(self).spec_errors().push(error),
            final(self).spec_profile() == old(self).spec_profile(),
            final(self).spec_modules() == old(self).spec_modules(),
            final(self).spec_recover() == old(self).spec_recover(),
    {
        self.errors.push(error);
    }

    /// Whether `module` was declared by the last parse.
    pub fn has_module(&self, module: Module) -> (r: bool)
        ensures
            r == self.spec_modules().contains(module),
    {
        let mut k: usize = 0;
        while k < self.modules.len()
            invariant
                0 <= k <= self.spec_modules().len(),
                forall|i: int| 0 <= i < k ==> self.spec_modules()[i] != module,
            decreases self.spec_modules().len() - k,
        {
            if self.modules[k] == module {
                proof {
                    assert(self.spec_modules()[k as int] == module);
                }
                return true;
            }
            k += 1;
        }
        false
    }
}

/// The profile named by a `@profile` directive on the line at cursor `c`,
/// if that line carries a valid one.
pub open spec fn profile_at(s: Seq<u8>, c: int) -> Option<Profile> {
    if 0 <= c < s.len() {
        let t = crate::bytes::trim_of(line_text(s, c));
        if matches_at(t, 0, kw_at_profile()) {
            let rest = trim_range(t, kw_at_profile().len() as int, t.len() as int);
            if rest == kw_litedoc() {
                Some(Profile::Litedoc)
            } else if rest == kw_md() {
                Some(Profile::Md)
            } else if rest == kw_md_strict() {
                Some(Profile::MdStrict)
            } else {
                None
            }
        } else {
            None
        }
    } else {
        None
    }
}

/// The module a comma-separated segment names, if any.
pub open spec fn module_for(seg: Seq<u8>) -> Option<Module> {
    if seg == kw_tables() {
        Some(Module::Tables)
    } else if seg == kw_footnotes() {
        Some(Module::Footnotes)
    } else if seg == kw_math() {
        Some(Module::Math)
    } else if seg == kw_tasks() {
        Some(Module::Tasks)
    } else if seg == kw_strikethrough() {
        Some(Module::Strikethrough)
    } else if seg == kw_autolink() {
        Some(Module::Autolink)
    } else if seg == kw_html() {
        Some(Module::Html)
    } else {
        None
    }
}

/// The modules named in the comma-separated list `t[i..]`, in order;
/// unknown names are dropped.
pub open spec fn modules_from(t: Seq<u8>, i: int) -> Seq<Module>
    decreases t.len() - i,
    when 0 <= i <= t.len()
    via modules_from_dec
{
    let p = find_byte_spec(t, i, t.len() as int, 44);
    let here: Seq<Module> = match module_for(trim_range(t, i, p)) {
        Some(m) => seq![m],
        None => seq![],
    };
    if p < t.len() {
        here + modules_from(t, p + 1)
    } else {
        here
    }
}

/// The module named by `t[lo..hi]`, if any.
fn module_name(t: &[u8], lo: usize, hi: usize) -> (r: Option<Module>)
    requires
        lo <= hi <= t@.len(),
    ensures
        r == module_for(t@.subrange(lo as int, hi as int)),
{
    let kw_tab = kw_tables_v();
    let kw_fn = kw_footnotes_v();
    let kw_ma = kw_math_v();
    let kw_ta = kw_tasks_v();
    let kw_st = kw_strikethrough_v();
    let kw_au = kw_autolink_v();
    let kw_ht = kw_html_v();
    if crate::bytes::range_is(t, lo, hi, kw_tab.as_slice()) {
        Some(Module::Tables)
    } else if crate::bytes::range_is(t, lo, hi, kw_fn.as_slice()) {
        Some(Module::Footnotes)
    } else if crate::bytes::range_is(t, lo, hi, kw_ma.as_slice()) {
        Some(Module::Math)
    } else if crate::bytes::range_is(t, lo, hi, kw_ta.as_slice()) {
        Some(Module::Tasks)
    } else if crate::bytes::range_is(t, lo, hi, kw_st.as_slice()) {
        Some(Module::Strikethrough)
    } else if crate::bytes::range_is(t, lo, hi, kw_au.as_slice()) {
        Some(Module::Autolink)
    } else if crate::bytes::range_is(t, lo, hi, kw_ht.as_slice()) {
        Some(Module::Html)
    } else {
        None
    }
}

#[via_fn]
proof fn modules_from_dec(t: Seq<u8>, i: int) {
    crate::bytes::lemma_find_byte_bounds(t, i, t.len() as int, 44);
}

/// Whether the line at cursor `c` is a `@modules` directive line.
pub open spec fn modules_line_at(s: Seq<u8>, c: int) -> bool {
    0 <= c < s.len() && matches_at(crate::bytes::trim_of(line_text(s, c)), 0, kw_at_modules())
}

/// The modules declared by the line at cursor `c` (empty when the line is
/// no `@modules` directive).
pub open spec fn modules_at(s: Seq<u8>, c: int) -> Seq<Module> {
    if modules_line_at(s, c) {
        let t = crate::bytes::trim_of(line_text(s, c));
        modules_from(t, kw_at_modules().len() as int)
    } else {
        Seq::empty()
    }
}

/// Cursor of the would-be metadata opener: after leading blank lines, the
/// optional `@profile` line, the optional `@modules` line, and following
/// blank lines.
pub open spec fn prologue_meta_at(s: Seq<u8>) -> int {
    let c1 = skip_blanks(s, 0);
    let c2 = match profile_at(s, c1) {
        Some(p) => skip_blanks(s, next_line_start(s, c1)),
        None => c1,
    };
    let c3 = if modules_line_at(s, c2) {
        skip_blanks(s, next_line_start(s, c2))
    } else {
        c2
    };
    skip_blanks(s, c3)
}

/// Cursor after the document prologue (directives and metadata): where the
/// block sequence begins.
pub open spec fn prologue_end(s: Seq<u8>) -> int {
    let c4 = prologue_meta_at(s);
    if metadata_opener_at(s, c4) {
        let cl = fence_close_at(s, next_line_start(s, c4), kw_dashes());
        if cl < s.len() {
            next_line_start(s, cl)
        } else {
            s.len() as int
        }
    } else {
        c4
    }
}

/// Skipping blank lines is idempotent.
pub proof fn lemma_skip_blanks_idem(s: Seq<u8>, c: int)
    requires
        0 <= c <= s.len(),
    ensures
        skip_blanks(s, skip_blanks(s, c)) == skip_blanks(s, c),
    decreases s.len() - c,
{
    lemma_line_shape(s, c);
    if c < s.len() && crate::bytes::seq_blank(line_text(s, c)) {
        lemma_skip_blanks_idem(s, next_line_start(s, c));
    }
}

/// The block sequence is unaffected by blank lines already skipped.
pub proof fn lemma_block_cursors_skip(s: Seq<u8>, c: int)
    requires
        0 <= c <= s.len(),
    ensures
        block_cursors(s, c) == block_cursors(s, skip_blanks(s, c)),
{
    lemma_skip_blanks_bounds(s, c);
    lemma_skip_blanks_idem(s, c);
}

impl Parser {
    /// Recognize an optional `@profile` directive at the cursor. On
    /// recognition the directive line and following blank lines are
    /// consumed; otherwise the cursor does not move.
    fn parse_profile_directive(&self, lexer: &mut Lexer) -> (r: Option<Profile>)
        requires
            old(lexer).wf(),
        ensures
            final(lexer).wf(),
            final(lexer).inp() == old(lexer).inp(),
            r == profile_at(old(lexer).inp(), old(lexer).cursor()),
            match r {
                Some(_) => final(lexer).cursor() == skip_blanks(
                    old(lexer).inp(),
                    next_line_start(old(lexer).inp(), old(lexer).cursor()),
                ),
                None => final(lexer).cursor() == old(lexer).cursor(),
            },
            final(lexer).cursor() >= old(lexer).cursor(),
    {
        let ghost s = old(lexer).inp();
        let ghost c = old(lexer).cursor();
        let peeked = lexer.peek_line();
        let line = match peeked {
            Some(l) => l,
            None => {
                return None;
            },
        };
        let trimmed = line.trimmed();
        let kw = kw_at_profile_v();
        if !starts_with_at(trimmed.as_slice(), 0, trimmed.len(), kw.as_slice()) {
            return None;
        }
        let (lo, hi) = trim_bounds(trimmed.as_slice(), kw.len(), trimmed.len());
        let lit = kw_litedoc_v();
        let md = kw_md_v();
        let mds = kw_md_strict_v();
        let profile: Option<Profile> = if crate::bytes::range_is(
            trimmed.as_slice(),
            lo,
            hi,
            lit.as_slice(),
        ) {
            Some(Profile::Litedoc)
        } else if crate::bytes::range_is(trimmed.as_slice(), lo, hi, md.as_slice()) {
            Some(Profile::Md)
        } else if crate::bytes::range_is(trimmed.as_slice(), lo, hi, mds.as_slice()) {
            Some(Profile::MdStrict)
        } else {
            None
        };
        if profile.is_some() {
            let consumed = lexer.next_line();
            lexer.skip_blank_lines();
        }
        profile
    }

    /// Recognize an optional `@modules` directive at the cursor. Unknown
    /// names are dropped; at most one such line is consumed, together with
    /// following blank lines.
    fn parse_modules_directive(&self, lexer: &mut Lexer) -> (r: Vec<Module>)
        requires
            old(lexer).wf(),
        ensures
            final(lexer).wf(),
            final(lexer).inp() == old(lexer).inp(),
            r@ == modules_at(old(lexer).inp(), old(lexer).cursor()),
            if modules_line_at(old(lexer).inp(), old(lexer).cursor()) {
                final(lexer).cursor() == skip_blanks(
                    old(lexer).inp(),
                    next_line_start(old(lexer).inp(), old(lexer).cursor()),
                )
            } else {
                final(lexer).cursor() == old(lexer).cursor()
            },
            final(lexer).cursor() >= old(lexer).cursor(),
    {
        let ghost s = old(lexer).inp();
        let ghost c = old(lexer).cursor();
        let peeked = lexer.peek_line();
        let line = match peeked {
            Some(l) => l,
            None => {
                proof {
                    assert(modules_at(s, c) =~= Seq::<Module>::empty());
                }
                return Vec::new();
            },
        };
        let trimmed = line.trimmed();
        let kw = kw_at_modules_v();
        if !starts_with_at(trimmed.as_slice(), 0, trimmed.len(), kw.as_slice()) {
            proof {
                assert(modules_at(s, c) =~= Seq::<Module>::empty());
            }
            return Vec::new();
        }
        let t = trimmed.as_slice();
        let n = trimmed.len();
        let mut modules: Vec<Module> = Vec::new();
        let mut i: usize = kw.len();
        proof {
            lemma_line_shape(s, c);
            assert(Seq::<Module>::empty() + modules_from(trimmed@, kw_at_modules().len() as int)
                =~= modules_from(trimmed@, kw_at_modules().len() as int));
        }
        while i <= n
            invariant
                old(lexer).inp() == s,
                old(lexer).cursor() == c,
                lexer.wf(),
                lexer.inp() == s,
                lexer.cursor() == c,
                0 <= c < s.len(),
                t@ == trimmed@,
                n == trimmed@.len(),
                kw_at_modules().len() <= i <= n + 1,
                modules_line_at(s, c),
                trimmed@ == crate::bytes::trim_of(line_text(s, c)),
                modules_from(trimmed@, kw_at_modules().len() as int) == modules@ + (if i <= n {
                    modules_from(trimmed@, i as int)
                } else {
                    Seq::<Module>::empty()
                }),
            decreases n + 1 - i,
        {
            let ghost i0 = i as int;
            let ghost pre = modules@;
            match find_byte_in(t, i, n, 44) {
                Some(p) => {
                    let (lo, hi) = trim_bounds(t, i, p);
                    let found = module_name(t, lo, hi);
                    match found {
                        Some(m) => modules.push(m),
                        None => {},
                    }
                    proof {
                        let seg = trim_range(trimmed@, i0, p as int);
                        assert(trimmed@.subrange(lo as int, hi as int) == seg);
                        let here: Seq<Module> = match module_for(seg) {
                            Some(m) => seq![m],
                            None => seq![],
                        };
                        assert(modules@ =~= pre + here);
                        assert(p as int == find_byte_spec(trimmed@, i0, n as int, 44));
                        let tail = modules_from(trimmed@, p + 1);
                        assert(modules_from(trimmed@, i0) == here + tail);
                        assert(pre + (here + tail) =~= (pre + here) + tail);
                    }
                    i = p + 1;
                },
                None => {
                    let (lo, hi) = trim_bounds(t, i, n);
                    let found = module_name(t, lo, hi);
                    match found {
                        Some(m) => modules.push(m),
                        None => {},
                    }
                    proof {
                        let seg = trim_range(trimmed@, i0, n as int);
                        assert(trimmed@.subrange(lo as int, hi as int) == seg);
                        let here: Seq<Module> = match module_for(seg) {
                            Some(m) => seq![m],
                            None => seq![],
                        };
                        assert(modules@ =~= pre + here);
                        assert(find_byte_spec(trimmed@, i0, n as int, 44) == n as int);
                        assert(modules_from(trimmed@, i0) == here);
                    }
                    let consumed = lexer.next_line();
                    lexer.skip_blank_lines();
                    return modules;
                },
            }
        }
        let consumed = lexer.next_line();
        lexer.skip_blank_lines();
        modules
    }
}

/// Consume the line at the cursor; callable only when one exists.
fn take_line(lexer: &mut Lexer) -> (l: Line)
    requires
        old(lexer).wf(),
        old(lexer).cursor() < old(lexer).inp().len(),
    ensures
        final(lexer).wf(),
        final(lexer).inp() == old(lexer).inp(),
        line_wf(l, old(lexer).inp(), old(lexer).cursor()),
        final(lexer).cursor() == next_line_start(old(lexer).inp(), old(lexer).cursor()),
        old(lexer).cursor() < final(lexer).cursor() <= old(lexer).inp().len(),
        l.span.start <= l.span.end,
        l.span.end as int <= final(lexer).cursor(),
{
    proof {
        lexer.lemma_cursor_bounds();
        lemma_line_shape(old(lexer).inp(), old(lexer).cursor());
    }
    let r = lexer.next_line();
    match r {
        Some(l) => l,
        None => {
            proof {
                assert(false);
            }
            Line { text: Vec::new(), span: Span::new(0, 0) }
        },
    }
}

impl Parser {
    /// A paragraph: the line at the cursor and every following line that is
    /// neither blank nor the start of another block, parsed as one inline
    /// run.
    fn parse_paragraph(&self, lexer: &mut Lexer, input: &[u8]) -> (r: Block)
        requires
            old(lexer).wf(),
            old(lexer).inp() == input@,
            old(lexer).cursor() < input@.len(),
        ensures
            final(lexer).wf(),
            final(lexer).inp() == input@,
            old(lexer).cursor() < final(lexer).cursor() <= input@.len(),
            block_wf(r),
            old(lexer).cursor() <= block_span(r).start as int,
            block_span(r).end as int <= final(lexer).cursor(),
            r matches Block::Paragraph(pb) && ({
                let s = old(lexer).inp();
                let c0 = old(lexer).cursor();
                &&& pb.span.start as int == c0
                &&& pb.span.end as int == para_end(s, c0)
                &&& final(lexer).cursor() == para_stop(s, c0)
                &&& crate::inline::inline_run_matches(pb.content@, s, c0, para_end(s, c0))
            }),
    {
        let ghost s = input@;
        let ghost c0 = old(lexer).cursor();
        let first = take_line(lexer);
        let start_span = first.span;
        let mut end_span = first.span;
        let ghost mut last_c: int = c0;
        let dashes = kw_dashes_v();
        let ticks = kw_backticks_v();
        loop
            invariant_except_break
                !para_break_at(s, lexer.cursor()) ==> {
                    &&& para_end(s, c0) == para_end(s, lexer.cursor())
                    &&& para_stop(s, c0) == para_stop(s, lexer.cursor())
                },
            invariant
                dashes@ == kw_dashes(),
                ticks@ == kw_backticks(),
                old(lexer).inp() == s,
                old(lexer).cursor() == c0,
                s == input@,
                lexer.wf(),
                lexer.inp() == s,
                c0 < lexer.cursor() <= s.len(),
                start_span.start as int == c0,
                start_span.start <= end_span.end,
                end_span.end as int <= lexer.cursor(),
                c0 <= last_c < s.len(),
                end_span.end as int == line_text_end(s, last_c),
                lexer.cursor() == next_line_start(s, last_c),
                para_break_at(s, lexer.cursor()) ==> {
                    &&& para_end(s, c0) == line_text_end(s, last_c)
                    &&& para_stop(s, c0) == lexer.cursor()
                },
            ensures
                para_end(s, c0) == end_span.end,
                para_stop(s, c0) == lexer.cursor(),
            decreases s.len() - lexer.cursor(),
        {
            let ghost cn = lexer.cursor();
            let peeked = lexer.peek_line();
            let line = match peeked {
                Some(l) => l,
                None => {
                    proof {
                        assert(para_break_at(s, cn));
                    }
                    break;
                },
            };
            if line.is_blank() {
                proof {
                    assert(para_break_at(s, cn));
                }
                break;
            }
            let t = line.trimmed();
            proof {
                assert(t@.subrange(0, t@.len() as int) =~= t@);
                assert(t@ == crate::bytes::trim_of(line_text(s, cn)));
            }
            if t.len() > 0 {
                let b = t[0];
                if b == 35 || b == 58 {
                    break;
                }
                if b == 96 && starts_with_at(t.as_slice(), 0, t.len(), ticks.as_slice()) {
                    break;
                }
                if b == 45 && crate::bytes::range_is(t.as_slice(), 0, t.len(), dashes.as_slice()) {
                    break;
                }
            }
            proof {
                assert(!para_break_at(s, cn));
            }
            let consumed = take_line(lexer);
            end_span = consumed.span;
            proof {
                last_c = cn;
            }
        }
        let a = start_span.start as usize;
        let b = end_span.end as usize;
        let content_slice = vstd::slice::slice_subrange(input, a, b);
        let content = crate::inline::parse_inlines(content_slice, start_span.start);
        let span = Span::new(start_span.start, end_span.end);
        proof {
            lemma_inlines_in_range_wf(content@, a as int, b as int, span);
        }
        Block::Paragraph(Paragraph { content, span })
    }

    /// A heading line: `#`s give the level; a level outside 1..=6, or a
    /// missing space after the `#`s, demotes the line to a paragraph.
    fn parse_heading(&self, lexer: &mut Lexer, input: &[u8]) -> (r: Block)
        requires
            old(lexer).wf(),
            old(lexer).inp() == input@,
            old(lexer).cursor() < input@.len(),
        ensures
            final(lexer).wf(),
            final(lexer).inp() == input@,
            old(lexer).cursor() < final(lexer).cursor() <= input@.len(),
            block_wf(r),
            old(lexer).cursor() <= block_span(r).start as int,
            block_span(r).end as int <= final(lexer).cursor(),
            final(lexer).cursor() == next_line_start(old(lexer).inp(), old(lexer).cursor()),
            ({
                let s = old(lexer).inp();
                let c0 = old(lexer).cursor();
                let te = line_text_end(s, c0);
                let t = line_text(s, c0);
                let lvl = crate::bytes::scan_run(t, 0, t.len() as int, 35);
                let cs: int = if lvl < t.len() && t[lvl] == 32 {
                    lvl + 1
                } else {
                    lvl
                };
                if 1 <= lvl <= 6 && (lvl == t.len() || t[lvl] == 32) {
                    r matches Block::Heading(h) && {
                        &&& h.level == lvl
                        &&& h.span.start as int == c0
                        &&& h.span.end as int == te
                        &&& crate::inline::inline_run_matches(h.content@, s, c0 + cs, te)
                    }
                } else {
                    r matches Block::Paragraph(p) && {
                        &&& p.span.start as int == c0
                        &&& p.span.end as int == te
                        &&& crate::inline::inline_run_matches(p.content@, s, c0, te)
                    }
                }
            }),
    {
        let ghost s = input@;
        let ghost c0 = old(lexer).cursor();
        let line = take_line(lexer);
        let t = &line.text;
        let n = t.len();
        proof {
            assert(line.span.end - line.span.start == n);
        }
        let level = crate::bytes::run_end(t.as_slice(), 0, n, 35);
        let demote = level == 0 || level > 6 || (level < n && t[level] != 32);
        if demote {
            let content = crate::inline::parse_inlines(t.as_slice(), line.span.start);
            proof {
                lemma_inlines_in_range_wf(
                    content@,
                    line.span.start as int,
                    line.span.start + n,
                    line.span,
                );
                assert(s.subrange(c0, line_text_end(s, c0)) =~= t@);
            }
            return Block::Paragraph(Paragraph { content, span: line.span });
        }
        // The heading content is the rest after a single space.
        let content_start: usize = if level < n && t[level] == 32 {
            level + 1
        } else {
            level
        };
        let content_slice = vstd::slice::slice_subrange(t.as_slice(), content_start, n);
        let content_offset = line.span.start + content_start as u32;
        let content = crate::inline::parse_inlines(content_slice, content_offset);
        proof {
            lemma_inlines_in_range_wf(
                content@,
                content_offset as int,
                line.span.start + n,
                line.span,
            );
            assert(s.subrange(c0 + content_start, line_text_end(s, c0)) =~= t@.subrange(
                content_start as int,
                n as int,
            ));
        }
        Block::Heading(Heading { level: level as u8, content, span: line.span })
    }

    /// A fenced code block: ` ``` ` opener with an optional language tag,
    /// raw content up to a line that is exactly ` ``` ` (or end of input).
    fn parse_code_block(&self, lexer: &mut Lexer, input: &[u8]) -> (r: Block)
        requires
            old(lexer).wf(),
            old(lexer).inp() == input@,
            old(lexer).cursor() < input@.len(),
        ensures
            final(lexer).wf(),
            final(lexer).inp() == input@,
            old(lexer).cursor() < final(lexer).cursor() <= input@.len(),
            block_wf(r),
            old(lexer).cursor() <= block_span(r).start as int,
            block_span(r).end as int <= final(lexer).cursor(),
            r matches Block::CodeBlock(cb) && ({
                let s = old(lexer).inp();
                let c0 = old(lexer).cursor();
                let t = crate::bytes::trim_of(line_text(s, c0));
                let cl = fence_close_at(s, next_line_start(s, c0), kw_backticks());
                &&& cb.lang@ == (if kw_backticks().len() <= t.len() && matches_at(
                    t,
                    0,
                    kw_backticks(),
                ) {
                    trim_range(t, kw_backticks().len() as int, t.len() as int)
                } else {
                    Seq::<u8>::empty()
                })
                &&& cb.content@ == (if cl < s.len() {
                    s.subrange(fence_content_start(s, c0), cl)
                } else {
                    fence_eof_content(s, c0)
                })
                &&& final(lexer).cursor() == (if cl < s.len() {
                    next_line_start(s, cl)
                } else {
                    s.len() as int
                })
            }),
    {
        let ghost s = input@;
        let ghost c0 = old(lexer).cursor();
        let opener = take_line(lexer);
        let ot = opener.trimmed();
        let ticks = kw_backticks_v();
        let lang: Vec<u8> = if starts_with_at(ot.as_slice(), 0, ot.len(), ticks.as_slice()) {
            let (llo, lhi) = trim_bounds(ot.as_slice(), ticks.len(), ot.len());
            copy_range(ot.as_slice(), llo, lhi)
        } else {
            Vec::new()
        };
        let ghost c1 = next_line_start(s, c0);
        proof {
            lemma_line_shape(s, c0);
            lemma_fence_close_bounds(s, c1, kw_backticks());
        }
        let ghost cl = fence_close_at(s, c1, kw_backticks());
        let mut content_start = opener.span.end as usize;
        if content_start < input.len() {
            content_start += 1;
        }
        let mut content_end = content_start;
        let mut end_span = opener.span;
        let mut closed = false;
        loop
            invariant_except_break
                !closed,
                content_start as int <= lexer.cursor(),
                fence_close_at(s, lexer.cursor(), kw_backticks()) == cl,
                c1 < s.len() ==> (if lexer.cursor() < s.len() {
                    last_line_end(s, c1) == last_line_end(s, lexer.cursor())
                } else {
                    last_line_end(s, c1) == content_end as int
                }),
            invariant
                ticks@ == kw_backticks(),
                c1 == next_line_start(s, c0),
                0 <= c1 <= s.len(),
                c1 <= lexer.cursor(),
                c1 >= s.len() ==> content_end == content_start,
                cl == fence_close_at(s, c1, kw_backticks()),
                old(lexer).inp() == s,
                old(lexer).cursor() == c0,
                s == input@,
                lexer.wf(),
                lexer.inp() == s,
                c0 < lexer.cursor() <= s.len(),
                opener.span.start as int == c0,
                opener.span.start <= end_span.end,
                end_span.end as int <= lexer.cursor(),
                content_start == fence_content_start(s, c0),
                content_start <= content_end <= s.len(),
            ensures
                closed == (cl < s.len()),
                closed ==> content_end == cl && lexer.cursor() == next_line_start(s, cl),
                !closed ==> {
                    &&& lexer.cursor() == s.len()
                    &&& content_end as int == (if c1 < s.len() {
                        last_line_end(s, c1)
                    } else {
                        content_start as int
                    })
                },
            decreases s.len() - lexer.cursor(),
        {
            let peeked = lexer.peek_line();
            let line = match peeked {
                Some(l) => l,
                None => {
                    proof {
                        assert(fence_close_at(s, lexer.cursor(), kw_backticks()) == s.len());
                    }
                    break;
                },
            };
            let ghost cnow = lexer.cursor();
            let lt = line.trimmed();
            let is_close = crate::bytes::range_is(lt.as_slice(), 0, lt.len(), ticks.as_slice());
            proof {
                assert(lt@.subrange(0, lt@.len() as int) =~= lt@);
                assert(lt@ == crate::bytes::trim_of(line_text(s, cnow)));
            }
            let consumed = take_line(lexer);
            end_span = consumed.span;
            if is_close {
                closed = true;
                // Content reaches the start of the closing fence line, so a
                // newline after the last content line belongs to the content.
                content_end = consumed.span.start as usize;
                proof {
                    assert(fence_close_at(s, cnow, kw_backticks()) == cnow);
                }
                break;
            }
            proof {
                assert(fence_close_at(s, cnow, kw_backticks()) == fence_close_at(
                    s,
                    next_line_start(s, cnow),
                    kw_backticks(),
                ));
                if c1 < s.len() {
                    if next_line_start(s, cnow) >= s.len() {
                        assert(last_line_end(s, cnow) == line_text_end(s, cnow));
                    } else {
                        assert(last_line_end(s, cnow) == last_line_end(
                            s,
                            next_line_start(s, cnow),
                        ));
                    }
                }
            }
            content_end = consumed.span.end as usize;
        }
        let content: Vec<u8> = if content_start < content_end {
            copy_range(input, content_start, content_end)
        } else {
            Vec::new()
        };
        proof {
            if content_start >= content_end {
                assert(s.subrange(content_start as int, content_end as int) =~= Seq::<u8>::empty());
            }
            if !closed && c1 >= s.len() {
                assert(content@ =~= Seq::<u8>::empty());
            }
        }
        Block::CodeBlock(
            CodeBlock { lang, content, span: Span::new(opener.span.start, end_span.end) },
        )
    }

    /// The shared raw-fence reader: consumes the opener line, then raw
    /// content up to a line whose trimmed text is `::` (or end of input).
    /// Returns the opener span, the content bytes, and the closer span.
    fn read_raw_fence(&self, lexer: &mut Lexer, input: &[u8]) -> (r: (Span, Vec<u8>, Span, bool))
        requires
            old(lexer).wf(),
            old(lexer).inp() == input@,
            old(lexer).cursor() < input@.len(),
        ensures
            final(lexer).wf(),
            final(lexer).inp() == input@,
            old(lexer).cursor() < final(lexer).cursor() <= input@.len(),
            old(lexer).cursor() == r.0.start as int,
            r.0.start <= r.0.end,
            r.0.start <= r.2.end,
            r.2.end as int <= final(lexer).cursor(),
            ({
                let c0 = old(lexer).cursor();
                let s = old(lexer).inp();
                let cl = fence_close_at(s, next_line_start(s, c0), kw_colons());
                &&& r.3 == (cl < s.len())
                &&& cl < s.len() ==> {
                    &&& r.1@ == s.subrange(fence_content_start(s, c0), cl)
                    &&& r.2.start as int == cl
                    &&& r.2.end as int == line_text_end(s, cl)
                    &&& final(lexer).cursor() == next_line_start(s, cl)
                }
                &&& cl >= s.len() ==> {
                    &&& final(lexer).cursor() == s.len()
                    &&& r.1@ == fence_eof_content(s, c0)
                }
            }),
    {
        let ghost s = input@;
        let ghost c0 = old(lexer).cursor();
        let opener = take_line(lexer);
        let colons = kw_colons_v();
        let ghost c1 = next_line_start(s, c0);
        proof {
            lemma_line_shape(s, c0);
            lemma_fence_close_bounds(s, c1, kw_colons());
        }
        let ghost cl = fence_close_at(s, c1, kw_colons());
        let mut content_start = opener.span.end as usize;
        if content_start < input.len() {
            content_start += 1;
        }
        let mut content_end = content_start;
        let mut end_span = opener.span;
        let mut closed = false;
        loop
            invariant_except_break
                !closed,
                content_start as int <= lexer.cursor(),
                fence_close_at(s, lexer.cursor(), kw_colons()) == cl,
                c1 < s.len() ==> (if lexer.cursor() < s.len() {
                    last_line_end(s, c1) == last_line_end(s, lexer.cursor())
                } else {
                    last_line_end(s, c1) == content_end as int
                }),
            invariant
                colons@ == kw_colons(),
                c1 == next_line_start(s, c0),
                0 <= c1 <= s.len(),
                c1 <= lexer.cursor(),
                c1 >= s.len() ==> content_end == content_start,
                cl == fence_close_at(s, c1, kw_colons()),
                old(lexer).inp() == s,
                old(lexer).cursor() == c0,
                s == input@,
                lexer.wf(),
                lexer.inp() == s,
                c0 < lexer.cursor() <= s.len(),
                opener.span.start as int == c0,
                opener.span.start <= opener.span.end,
                opener.span.start <= end_span.end,
                end_span.end as int <= lexer.cursor(),
                content_start == fence_content_start(s, c0),
                content_start <= content_end <= s.len(),
            ensures
                closed == (cl < s.len()),
                closed ==> {
                    &&& content_end == cl
                    &&& end_span.start as int == cl
                    &&& end_span.end as int == line_text_end(s, cl)
                    &&& lexer.cursor() == next_line_start(s, cl)
                },
                !closed ==> {
                    &&& lexer.cursor() == s.len()
                    &&& content_end as int == (if c1 < s.len() {
                        last_line_end(s, c1)
                    } else {
                        content_start as int
                    })
                },
            decreases s.len() - lexer.cursor(),
        {
            let peeked = lexer.peek_line();
            let line = match peeked {
                Some(l) => l,
                None => {
                    proof {
                        assert(fence_close_at(s, lexer.cursor(), kw_colons()) == s.len());
                    }
                    break;
                },
            };
            let ghost cnow = lexer.cursor();
            let lt = line.trimmed();
            let is_close = crate::bytes::range_is(lt.as_slice(), 0, lt.len(), colons.as_slice());
            proof {
                assert(lt@.subrange(0, lt@.len() as int) =~= lt@);
                assert(lt@ == crate::bytes::trim_of(line_text(s, cnow)));
            }
            let consumed = take_line(lexer);
            end_span = consumed.span;
            if is_close {
                closed = true;
                // Content reaches the start of the closing fence line, so a
                // newline after the last content line belongs to the content.
                content_end = consumed.span.start as usize;
                proof {
                    assert(fence_close_at(s, cnow, kw_colons()) == cnow);
                }
                break;
            }
            proof {
                assert(fence_close_at(s, cnow, kw_colons()) == fence_close_at(
                    s,
                    next_line_start(s, cnow),
                    kw_colons(),
                ));
                if c1 < s.len() {
                    if next_line_start(s, cnow) >= s.len() {
                        assert(last_line_end(s, cnow) == line_text_end(s, cnow));
                    } else {
                        assert(last_line_end(s, cnow) == last_line_end(
                            s,
                            next_line_start(s, cnow),
                        ));
                    }
                }
            }
            content_end = consumed.span.end as usize;
        }
        let content: Vec<u8> = if content_start < content_end {
            copy_range(input, content_start, content_end)
        } else {
            Vec::new()
        };
        proof {
            if content_start >= content_end {
                assert(s.subrange(content_start as int, content_end as int) =~= Seq::<u8>::empty());
            }
            if !closed && c1 >= s.len() {
                assert(content@ =~= Seq::<u8>::empty());
            }
        }
        (opener.span, content, end_span, closed)
    }

    /// An unknown fenced directive consumed as a raw block.
    fn parse_raw_fenced_block(&self, lexer: &mut Lexer, input: &[u8]) -> (r: Block)
        requires
            old(lexer).wf(),
            old(lexer).inp() == input@,
            old(lexer).cursor() < input@.len(),
        ensures
            final(lexer).wf(),
            final(lexer).inp() == input@,
            old(lexer).cursor() < final(lexer).cursor() <= input@.len(),
            block_wf(r),
            old(lexer).cursor() <= block_span(r).start as int,
            block_span(r).end as int <= final(lexer).cursor(),
            r matches Block::Raw(rb) && ({
                let s = old(lexer).inp();
                let c0 = old(lexer).cursor();
                let cl = fence_close_at(s, next_line_start(s, c0), kw_colons());
                &&& cl < s.len() ==> rb.content@ == s.subrange(fence_content_start(s, c0), cl)
                &&& cl >= s.len() ==> rb.content@ == fence_eof_content(s, c0)
                &&& final(lexer).cursor() == (if cl < s.len() {
                    next_line_start(s, cl)
                } else {
                    s.len() as int
                })
            }),
    {
        let (open_span, content, end_span, _closed) = self.read_raw_fence(lexer, input);
        Block::Raw(RawBlock { content, span: Span::new(open_span.start, end_span.end) })
    }

    /// A `::math` block; `block` or `display` among the opener's attributes
    /// sets the display flag, and the body is raw text.
    fn parse_math_block(&self, lexer: &mut Lexer, input: &[u8]) -> (r: Block)
        requires
            old(lexer).wf(),
            old(lexer).inp() == input@,
            old(lexer).cursor() < input@.len(),
        ensures
            final(lexer).wf(),
            final(lexer).inp() == input@,
            old(lexer).cursor() < final(lexer).cursor() <= input@.len(),
            block_wf(r),
            old(lexer).cursor() <= block_span(r).start as int,
            block_span(r).end as int <= final(lexer).cursor(),
            r matches Block::Math(mb) && ({
                let s = old(lexer).inp();
                let c0 = old(lexer).cursor();
                let t = crate::bytes::trim_of(line_text(s, c0));
                let cl = fence_close_at(s, next_line_start(s, c0), kw_colons());
                &&& mb.display == math_display_of(t)
                &&& cl < s.len() ==> mb.content@ == s.subrange(fence_content_start(s, c0), cl)
                &&& cl >= s.len() ==> mb.content@ == fence_eof_content(s, c0)
                &&& final(lexer).cursor() == (if cl < s.len() {
                    next_line_start(s, cl)
                } else {
                    s.len() as int
                })
            }),
    {
        let display = {
            let peeked = lexer.peek_line();
            match peeked {
                Some(line) => {
                    let lt = line.trimmed();
                    let block_w = kw_block_v();
                    let display_w = kw_display_v();
                    crate::bytes::contains_sub(lt.as_slice(), 0, lt.len(), block_w.as_slice())
                        || crate::bytes::contains_sub(
                        lt.as_slice(),
                        0,
                        lt.len(),
                        display_w.as_slice(),
                    )
                },
                None => false,
            }
        };
        let (open_span, content, end_span, _closed) = self.read_raw_fence(lexer, input);
        Block::Math(
            MathBlock { display, content, span: Span::new(open_span.start, end_span.end) },
        )
    }

    /// A `::html` block: raw pass-through when the `Html` module is on,
    /// otherwise a plain raw block. An unclosed HTML block records an
    /// `UnclosedDelimiter` error.
    fn parse_html_block(&mut self, lexer: &mut Lexer, input: &[u8]) -> (r: Block)
        requires
            old(lexer).wf(),
            old(lexer).inp() == input@,
            old(lexer).cursor() < input@.len(),
        ensures
            final(lexer).wf(),
            final(lexer).inp() == input@,
            old(lexer).cursor() < final(lexer).cursor() <= input@.len(),
            block_wf(r),
            old(lexer).cursor() <= block_span(r).start as int,
            block_span(r).end as int <= final(lexer).cursor(),
            ({
                let s = old(lexer).inp();
                let c0 = old(lexer).cursor();
                let cl = fence_close_at(s, next_line_start(s, c0), kw_colons());
                &&& (if old(self).spec_modules().contains(Module::Html) {
                    r matches Block::Html(hb) && {
                        &&& cl < s.len() ==> hb.content@ == s.subrange(
                            fence_content_start(s, c0),
                            cl,
                        )
                        &&& cl >= s.len() ==> hb.content@ == fence_eof_content(s, c0)
                    }
                } else {
                    r matches Block::Raw(rb) && {
                        &&& cl < s.len() ==> rb.content@ == s.subrange(
                            fence_content_start(s, c0),
                            cl,
                        )
                        &&& cl >= s.len() ==> rb.content@ == fence_eof_content(s, c0)
                    }
                })
                &&& final(lexer).cursor() == (if cl < s.len() {
                    next_line_start(s, cl)
                } else {
                    s.len() as int
                })
            }),
            ({
                let s = old(lexer).inp();
                let c0 = old(lexer).cursor();
                let cl = fence_close_at(s, next_line_start(s, c0), kw_colons());
                if old(self).spec_modules().contains(Module::Html) && cl >= s.len() {
                    &&& final(self).spec_errors().len() == old(self).spec_errors().len() + 1
                    &&& final(self).spec_errors().subrange(
                        0,
                        old(self).spec_errors().len() as int,
                    ) == old(self).spec_errors()
                    &&& final(self).spec_errors().last().kind
                        == crate::error::ParseErrorKind::UnclosedDelimiter
                    &&& final(self).spec_errors().last().message@ == kw_msg_unclosed()
                        + kw_html_block()
                } else {
                    final(self).spec_errors() == old(self).spec_errors()
                }
            }),
            final(self).spec_profile() == old(self).spec_profile(),
            final(self).spec_modules() == old(self).spec_modules(),
            final(self).spec_recover() == old(self).spec_recover(),
    {
        if !self.has_module(Module::Html) {
            return self.parse_raw_fenced_block(lexer, input);
        }
        let (open_span, content, end_span, closed) = self.read_raw_fence(lexer, input);
        if !closed {
            let name = kw_html_block_v();
            self.record_error(ParseError::unclosed_delimiter(name.as_slice(), Some(open_span)));
            proof {
                assert(self.spec_errors().subrange(0, old(self).spec_errors().len() as int)
                    =~= old(self).spec_errors());
            }
        }
        Block::Html(HtmlBlock { content, span: Span::new(open_span.start, end_span.end) })
    }
}

/// View of an optional byte vector.
pub open spec fn opt_bytes(o: Option<Vec<u8>>) -> Option<Seq<u8>> {
    match o {
        Some(v) => Some(v@),
        None => None,
    }
}

/// The value the `key=value` scanner assigns to `key` over `t[r..to]`,
/// starting with accumulator `acc`: attributes are read left to right, a
/// later binding of the same key replacing an earlier one. A value is
/// either double-quoted (quotes stripped) or bare (up to the next space).
/// Scanning stops at a missing `=`, an unterminated quote, or lack of
/// progress.
pub open spec fn attr_scan(
    t: Seq<u8>,
    r: int,
    to: int,
    key: Seq<u8>,
    acc: Option<Seq<u8>>,
) -> Option<Seq<u8>>
    decreases to - r,
    when 0 <= r && to <= t.len()
    via attr_scan_dec
{
    if r >= to {
        acc
    } else {
        let e = find_byte_spec(t, r, to, 61);
        if e >= to {
            acc
        } else {
            let ks = trim_range(t, r, e);
            let v = crate::bytes::scan_ws(t, e + 1, to);
            if v < to && t[v] == 34 {
                let q = find_byte_spec(t, v + 1, to, 34);
                if q >= to {
                    acc
                } else {
                    let value = t.subrange(v + 1, q);
                    let next = crate::bytes::scan_ws(t, q + 1, to);
                    let acc2: Option<Seq<u8>> = if ks == key {
                        Some(value)
                    } else {
                        acc
                    };
                    if next <= r {
                        acc2
                    } else {
                        attr_scan(t, next, to, key, acc2)
                    }
                }
            } else {
                let end = find_byte_spec(t, v, to, 32);
                let value = t.subrange(v, end);
                let next = crate::bytes::scan_ws(t, end, to);
                let acc2: Option<Seq<u8>> = if ks == key {
                    Some(value)
                } else {
                    acc
                };
                if next <= r {
                    acc2
                } else {
                    attr_scan(t, next, to, key, acc2)
                }
            }
        }
    }
}

#[via_fn]
proof fn attr_scan_dec(t: Seq<u8>, r: int, to: int, key: Seq<u8>, acc: Option<Seq<u8>>) {
    if 0 <= r && to <= t.len() && r < to {
        let e = find_byte_spec(t, r, to, 61);
        crate::bytes::lemma_find_byte_bounds(t, r, to, 61);
        if e < to {
            crate::bytes::lemma_scan_ws_bounds(t, e + 1, to);
            let v = crate::bytes::scan_ws(t, e + 1, to);
            if v < to && t[v] == 34 {
                crate::bytes::lemma_find_byte_bounds(t, v + 1, to, 34);
                let q = find_byte_spec(t, v + 1, to, 34);
                if q < to {
                    crate::bytes::lemma_scan_ws_bounds(t, q + 1, to);
                }
            } else {
                crate::bytes::lemma_find_byte_bounds(t, v, to, 32);
                let end = find_byte_spec(t, v, to, 32);
                crate::bytes::lemma_scan_ws_bounds(t, end, to);
            }
        }
    }
}

impl Parser {
    /// Body reader for `::callout` and `::quote`: consumes lines until one
    /// whose trimmed text is `::` (or end of input), gathering non-blank
    /// runs into paragraphs. Returns the blocks and the closer's span (or
    /// `fallback` when no line at all was consumed).
    #[verifier::rlimit(60)]
    fn parse_until_fence_close(&self, lexer: &mut Lexer, input: &[u8], fallback: Span) -> (r: (
        Vec<Block>,
        Span,
    ))
        requires
            old(lexer).wf(),
            old(lexer).inp() == input@,
            span_ordered(fallback),
            fallback.end as int <= old(lexer).cursor(),
        ensures
            final(lexer).wf(),
            final(lexer).inp() == input@,
            old(lexer).cursor() <= final(lexer).cursor() <= input@.len(),
            span_ordered(r.1),
            fallback.end <= r.1.end,
            r.1.end as int <= final(lexer).cursor(),
            blocks_in_range(r.0@, old(lexer).cursor(), r.1.end as int),
            paras_match(r.0@, input@, body_paras(input@, old(lexer).cursor(), None)),
            ({
                let cl = fence_close_at(input@, old(lexer).cursor(), kw_colons());
                &&& cl < input@.len() ==> {
                    &&& r.1.start as int == cl
                    &&& r.1.end as int == line_text_end(input@, cl)
                    &&& final(lexer).cursor() == next_line_start(input@, cl)
                }
                &&& cl >= input@.len() ==> {
                    &&& final(lexer).cursor() == input@.len()
                    &&& r.1.end as int == (if old(lexer).cursor() < input@.len() {
                        last_line_end(input@, old(lexer).cursor())
                    } else {
                        fallback.end as int
                    })
                }
            }),
    {
        let ghost s = input@;
        let ghost c0 = old(lexer).cursor();
        proof {
            lexer.lemma_cursor_bounds();
        }
        let colons = kw_colons_v();
        let mut blocks: Vec<Block> = Vec::new();
        let mut para_start: Option<u32> = None;
        let mut para_end: u32 = 0;
        let mut end_span = fallback;
        let ghost mut done: Seq<(int, int)> = Seq::empty();
        proof {
            assert(Seq::<(int, int)>::empty() + body_paras(s, c0, None) =~= body_paras(
                s,
                c0,
                None,
            ));
        }
        loop
            invariant_except_break
                body_paras(s, c0, None) == done + body_paras(
                    s,
                    lexer.cursor(),
                    match para_start {
                        Some(ps) => Some((ps as int, para_end as int)),
                        None => None,
                    },
                ),
                c0 < s.len() ==> (if lexer.cursor() < s.len() {
                    last_line_end(s, c0) == last_line_end(s, lexer.cursor())
                } else {
                    last_line_end(s, c0) == end_span.end as int
                }),
            invariant
                c0 >= s.len() ==> end_span == fallback,
                colons@ == kw_colons(),
                old(lexer).inp() == s,
                old(lexer).cursor() == c0,
                s == input@,
                lexer.wf(),
                lexer.inp() == s,
                c0 <= lexer.cursor() <= s.len(),
                span_ordered(end_span),
                fallback.end <= end_span.end,
                end_span.end as int <= lexer.cursor(),
                paras_match(blocks@, s, done),
                fence_close_at(s, lexer.cursor(), kw_colons()) == fence_close_at(
                    s,
                    c0,
                    kw_colons(),
                ),
                match para_start {
                    Some(ps) => {
                        &&& c0 <= ps <= para_end
                        &&& para_end == end_span.end
                        &&& blocks_in_range(blocks@, c0, ps as int)
                    },
                    None => blocks_in_range(blocks@, c0, end_span.end as int),
                },
            ensures
                paras_match(blocks@, s, body_paras(s, c0, None)),
                ({
                    let cl = fence_close_at(s, c0, kw_colons());
                    &&& cl < s.len() ==> {
                        &&& end_span.start as int == cl
                        &&& end_span.end as int == line_text_end(s, cl)
                        &&& lexer.cursor() == next_line_start(s, cl)
                    }
                    &&& cl >= s.len() ==> {
                        &&& lexer.cursor() == s.len()
                        &&& end_span.end as int == (if c0 < s.len() {
                            last_line_end(s, c0)
                        } else {
                            fallback.end as int
                        })
                    }
                }),
            decreases s.len() - lexer.cursor(),
        {
            let ghost cn = lexer.cursor();
            let ghost pend = match para_start {
                Some(ps) => Some((ps as int, para_end as int)),
                None => None::<(int, int)>,
            };
            let got = lexer.next_line();
            let line = match got {
                Some(l) => l,
                None => {
                    proof {
                        assert(body_paras(s, cn, pend) =~= Seq::<(int, int)>::empty());
                        assert(done + Seq::<(int, int)>::empty() =~= done);
                        assert(fence_close_at(s, cn, kw_colons()) == s.len());
                    }
                    break;
                },
            };
            proof {
                lemma_line_shape(s, line.span.start as int);
            }
            let lt = line.trimmed();
            let is_close = crate::bytes::range_is(lt.as_slice(), 0, lt.len(), colons.as_slice());
            proof {
                assert(lt@.subrange(0, lt@.len() as int) =~= lt@);
                assert(lt@ == crate::bytes::trim_of(line_text(s, cn)));
            }
            if is_close {
                proof {
                    assert(fence_close_at(s, cn, kw_colons()) == cn);
                }
                match para_start {
                    Some(ps) => {
                        let content_slice = vstd::slice::slice_subrange(
                            input,
                            ps as usize,
                            para_end as usize,
                        );
                        let content = crate::inline::parse_inlines(content_slice, ps);
                        let span = Span::new(ps, para_end);
                        proof {
                            lemma_inlines_in_range_wf(content@, ps as int, para_end as int, span);
                        }
                        blocks.push(Block::Paragraph(Paragraph { content, span }));
                        proof {
                            done = done.push((ps as int, para_end as int));
                            assert(done.drop_last() + seq![(ps as int, para_end as int)]
                                =~= done);
                        }
                    },
                    None => {
                        proof {
                            assert(done + seq![] =~= done);
                        }
                    },
                }
                end_span = line.span;
                proof {
                    assert(paras_match(blocks@, s, done));
                    assert(body_paras(s, c0, None) =~= done);
                }
                return (blocks, end_span);
            }
            if line.is_blank() {
                match para_start {
                    Some(ps) => {
                        let content_slice = vstd::slice::slice_subrange(
                            input,
                            ps as usize,
                            para_end as usize,
                        );
                        let content = crate::inline::parse_inlines(content_slice, ps);
                        let span = Span::new(ps, para_end);
                        proof {
                            lemma_inlines_in_range_wf(content@, ps as int, para_end as int, span);
                        }
                        blocks.push(Block::Paragraph(Paragraph { content, span }));
                        proof {
                            let pr = (ps as int, para_end as int);
                            assert(body_paras(s, cn, pend) == seq![pr] + body_paras(
                                s,
                                next_line_start(s, cn),
                                None,
                            ));
                            assert(done + (seq![pr] + body_paras(s, next_line_start(s, cn), None))
                                =~= (done + seq![pr]) + body_paras(s, next_line_start(s, cn), None));
                            done = done.push(pr);
                            assert(done.drop_last() + seq![pr] =~= done);
                        }
                    },
                    None => {
                        proof {
                            assert(body_paras(s, cn, pend) == seq![] + body_paras(
                                s,
                                next_line_start(s, cn),
                                None,
                            ));
                            assert(seq![] + body_paras(s, next_line_start(s, cn), None)
                                =~= body_paras(s, next_line_start(s, cn), None));
                        }
                    },
                }
                para_start = None;
            } else {
                if para_start.is_none() {
                    para_start = Some(line.span.start);
                }
                para_end = line.span.end;
            }
            end_span = line.span;
            proof {
                if c0 < s.len() {
                    if next_line_start(s, cn) >= s.len() {
                        assert(last_line_end(s, cn) == line_text_end(s, cn));
                    } else {
                        assert(last_line_end(s, cn) == last_line_end(
                            s,
                            next_line_start(s, cn),
                        ));
                    }
                }
            }
        }
        (blocks, end_span)
    }

    /// The `key=value` attribute scanner shared by `::callout` and
    /// `::figure` openers: values may be double-quoted or bare. Returns the
    /// values found for the three given key words, exactly as
    /// [`attr_scan`] describes.
    fn scan_attrs(
        &self,
        t: &[u8],
        from: usize,
        to: usize,
        key1: &[u8],
        key2: &[u8],
        key3: &[u8],
    ) -> (r: (Option<Vec<u8>>, Option<Vec<u8>>, Option<Vec<u8>>))
        requires
            from <= to <= t@.len(),
            key1@ != key2@,
            key1@ != key3@,
            key2@ != key3@,
        ensures
            opt_bytes(r.0) == attr_scan(t@, from as int, to as int, key1@, None),
            opt_bytes(r.1) == attr_scan(t@, from as int, to as int, key2@, None),
            opt_bytes(r.2) == attr_scan(t@, from as int, to as int, key3@, None),
    {
        let ghost ts = t@;
        let mut v1: Option<Vec<u8>> = None;
        let mut v2: Option<Vec<u8>> = None;
        let mut v3: Option<Vec<u8>> = None;
        let mut r = from;
        loop
            invariant
                ts == t@,
                from <= r,
                r <= to <= t@.len(),
                attr_scan(ts, from as int, to as int, key1@, None) == attr_scan(
                    ts,
                    r as int,
                    to as int,
                    key1@,
                    opt_bytes(v1),
                ),
                attr_scan(ts, from as int, to as int, key2@, None) == attr_scan(
                    ts,
                    r as int,
                    to as int,
                    key2@,
                    opt_bytes(v2),
                ),
                attr_scan(ts, from as int, to as int, key3@, None) == attr_scan(
                    ts,
                    r as int,
                    to as int,
                    key3@,
                    opt_bytes(v3),
                ),
                key1@ != key2@,
                key1@ != key3@,
                key2@ != key3@,
            ensures
                opt_bytes(v1) == attr_scan(ts, from as int, to as int, key1@, None),
                opt_bytes(v2) == attr_scan(ts, from as int, to as int, key2@, None),
                opt_bytes(v3) == attr_scan(ts, from as int, to as int, key3@, None),
            decreases to - r,
        {
            if r >= to {
                break;
            }
            let e = match find_byte_in(t, r, to, 61) {
                Some(e) => e,
                None => {
                    break;
                },
            };
            let (klo, khi) = trim_bounds(t, r, e);
            let v = crate::bytes::first_non_ws(t, e + 1, to);
            let (vlo, vhi, next) = if v < to && t[v] == 34 {
                match find_byte_in(t, v + 1, to, 34) {
                    Some(q) => (v + 1, q, crate::bytes::first_non_ws(t, q + 1, to)),
                    None => {
                        break;
                    },
                }
            } else {
                let end = match find_byte_in(t, v, to, 32) {
                    Some(p) => p,
                    None => to,
                };
                (v, end, crate::bytes::first_non_ws(t, end, to))
            };
            if crate::bytes::range_is(t, klo, khi, key1) {
                v1 = Some(copy_range(t, vlo, vhi));
            } else if crate::bytes::range_is(t, klo, khi, key2) {
                v2 = Some(copy_range(t, vlo, vhi));
            } else if crate::bytes::range_is(t, klo, khi, key3) {
                v3 = Some(copy_range(t, vlo, vhi));
            }
            if next <= r {
                break;
            }
            r = next;
        }
        (v1, v2, v3)
    }

    /// A `::callout` block: `type` and `title` attributes (kind defaults to
    /// `note`), body read by the until-fence-close sub-parser.
    fn parse_callout_block(&self, lexer: &mut Lexer, input: &[u8]) -> (r: Block)
        requires
            old(lexer).wf(),
            old(lexer).inp() == input@,
            old(lexer).cursor() < input@.len(),
        ensures
            final(lexer).wf(),
            final(lexer).inp() == input@,
            old(lexer).cursor() < final(lexer).cursor() <= input@.len(),
            block_wf(r),
            old(lexer).cursor() <= block_span(r).start as int,
            block_span(r).end as int <= final(lexer).cursor(),
            r matches Block::Callout(c) && ({
                let s = old(lexer).inp();
                let c0 = old(lexer).cursor();
                let c1 = next_line_start(s, c0);
                let t = crate::bytes::trim_of(line_text(s, c0));
                let named = kw_colons().len() + kw_callout().len() <= t.len() && matches_at(
                    t,
                    0,
                    kw_colons(),
                ) && matches_at(t, kw_colons().len() as int, kw_callout());
                let alo: int = if named {
                    kw_colons().len() + kw_callout().len() as int
                } else {
                    t.len() as int
                };
                &&& c.kind@ == (match attr_scan(t, alo, t.len() as int, kw_type_name(), None) {
                    Some(v) => v,
                    None => kw_note(),
                })
                &&& opt_bytes(c.title) == attr_scan(t, alo, t.len() as int, kw_title(), None)
                &&& c.span.start as int == c0
                &&& paras_match(c.blocks@, s, body_paras(s, c1, None))
                &&& ({
                    let cl = fence_close_at(s, c1, kw_colons());
                    &&& cl < s.len() ==> c.span.end as int == line_text_end(s, cl)
                    &&& cl >= s.len() ==> c.span.end as int == (if c1 < s.len() {
                        last_line_end(s, c1)
                    } else {
                        line_text_end(s, c0)
                    })
                    &&& final(lexer).cursor() == (if cl < s.len() {
                        next_line_start(s, cl)
                    } else {
                        s.len() as int
                    })
                })
            }),
    {
        let ghost s = input@;
        let ghost c0 = old(lexer).cursor();
        let opener = take_line(lexer);
        let ot = opener.trimmed();
        let n = ot.len();
        let colons = kw_colons_v();
        let kw = kw_callout_v();
        let mut alo = n;
        if starts_with_at(ot.as_slice(), 0, n, colons.as_slice()) {
            if starts_with_at(ot.as_slice(), 2, n, kw.as_slice()) {
                alo = 2 + kw.len();
            }
        }
        let key_type = kw_type_name_v();
        let key_title = kw_title_v();
        let key_unused = kw_src_v();
        proof {
            assert(key_type@.len() != key_title@.len());
            assert(key_type@.len() != key_unused@.len());
            assert(key_title@.len() != key_unused@.len());
        }
        let (tv, ttl, _unused) = self.scan_attrs(
            ot.as_slice(),
            alo,
            n,
            key_type.as_slice(),
            key_title.as_slice(),
            key_unused.as_slice(),
        );
        let kind = match tv {
            Some(v) => v,
            None => kw_note_v(),
        };
        let ghost c1 = lexer.cursor();
        let (blocks, end_span) = self.parse_until_fence_close(lexer, input, opener.span);
        let span = Span::new(opener.span.start, end_span.end);
        proof {
            lemma_blocks_in_range_wf(blocks@, c1, end_span.end as int, span);
        }
        Block::Callout(Callout { kind, title: ttl, blocks, span })
    }

    /// A `::quote` block: its body read by the until-fence-close
    /// sub-parser.
    fn parse_quote_block(&self, lexer: &mut Lexer, input: &[u8]) -> (r: Block)
        requires
            old(lexer).wf(),
            old(lexer).inp() == input@,
            old(lexer).cursor() < input@.len(),
        ensures
            final(lexer).wf(),
            final(lexer).inp() == input@,
            old(lexer).cursor() < final(lexer).cursor() <= input@.len(),
            block_wf(r),
            old(lexer).cursor() <= block_span(r).start as int,
            block_span(r).end as int <= final(lexer).cursor(),
            r matches Block::Quote(q) && ({
                let s = old(lexer).inp();
                let c0 = old(lexer).cursor();
                let c1 = next_line_start(s, c0);
                &&& q.span.start as int == c0
                &&& paras_match(q.blocks@, s, body_paras(s, c1, None))
                &&& ({
                    let cl = fence_close_at(s, c1, kw_colons());
                    &&& cl < s.len() ==> q.span.end as int == line_text_end(s, cl)
                    &&& cl >= s.len() ==> q.span.end as int == (if c1 < s.len() {
                        last_line_end(s, c1)
                    } else {
                        line_text_end(s, c0)
                    })
                    &&& final(lexer).cursor() == (if cl < s.len() {
                        next_line_start(s, cl)
                    } else {
                        s.len() as int
                    })
                })
            }),
    {
        let opener = take_line(lexer);
        let ghost c1 = lexer.cursor();
        let (blocks, end_span) = self.parse_until_fence_close(lexer, input, opener.span);
        let span = Span::new(opener.span.start, end_span.end);
        proof {
            lemma_blocks_in_range_wf(blocks@, c1, end_span.end as int, span);
        }
        Block::Quote(Quote { blocks, span })
    }

    /// A `::figure` block: `src`, `alt` and `caption` attributes on the
    /// opener, with an optional `::` closer line.
    fn parse_figure_block(&self, lexer: &mut Lexer, input: &[u8]) -> (r: Block)
        requires
            old(lexer).wf(),
            old(lexer).inp() == input@,
            old(lexer).cursor() < input@.len(),
        ensures
            final(lexer).wf(),
            final(lexer).inp() == input@,
            old(lexer).cursor() < final(lexer).cursor() <= input@.len(),
            block_wf(r),
            old(lexer).cursor() <= block_span(r).start as int,
            block_span(r).end as int <= final(lexer).cursor(),
            r matches Block::Figure(f) && ({
                let t = crate::bytes::trim_of(line_text(old(lexer).inp(), old(lexer).cursor()));
                let named = kw_colons().len() + kw_figure().len() <= t.len() && matches_at(
                    t,
                    0,
                    kw_colons(),
                ) && matches_at(t, kw_colons().len() as int, kw_figure());
                let alo: int = if named {
                    kw_colons().len() + kw_figure().len() as int
                } else {
                    t.len() as int
                };
                &&& f.src@ == (match attr_scan(t, alo, t.len() as int, kw_src(), None) {
                    Some(v) => v,
                    None => Seq::<u8>::empty(),
                })
                &&& f.alt@ == (match attr_scan(t, alo, t.len() as int, kw_alt(), None) {
                    Some(v) => v,
                    None => Seq::<u8>::empty(),
                })
                &&& opt_bytes(f.caption) == attr_scan(t, alo, t.len() as int, kw_caption(), None)
                &&& ({
                    let s = old(lexer).inp();
                    let c1 = next_line_start(s, old(lexer).cursor());
                    final(lexer).cursor() == (if c1 < s.len() && crate::bytes::trim_of(
                        line_text(s, c1),
                    ) == kw_colons() {
                        next_line_start(s, c1)
                    } else {
                        c1
                    })
                })
            }),
    {
        let ghost s = input@;
        let ghost c0 = old(lexer).cursor();
        let opener = take_line(lexer);
        let ot = opener.trimmed();
        let n = ot.len();
        let fig_colons = kw_colons_v();
        let kw = kw_figure_v();
        let mut alo = n;
        if starts_with_at(ot.as_slice(), 0, n, fig_colons.as_slice()) {
            if starts_with_at(ot.as_slice(), 2, n, kw.as_slice()) {
                alo = 2 + kw.len();
            }
        }
        let key_src = kw_src_v();
        let key_alt = kw_alt_v();
        let key_cap = kw_caption_v();
        proof {
            assert(key_src@[0] != key_alt@[0]);
            assert(key_src@.len() != key_cap@.len());
            assert(key_alt@.len() != key_cap@.len());
        }
        let (srcv, altv, caption) = self.scan_attrs(
            ot.as_slice(),
            alo,
            n,
            key_src.as_slice(),
            key_alt.as_slice(),
            key_cap.as_slice(),
        );
        let src = match srcv {
            Some(v) => v,
            None => Vec::new(),
        };
        let alt = match altv {
            Some(v) => v,
            None => Vec::new(),
        };
        let mut end_span = opener.span;
        let peeked = lexer.peek_line();
        match peeked {
            Some(line) => {
                let lt = line.trimmed();
                let close_w = kw_colons_v();
                proof {
                    assert(lt@.subrange(0, lt@.len() as int) =~= lt@);
                    assert(lt@ == crate::bytes::trim_of(line_text(s, lexer.cursor())));
                }
                if crate::bytes::range_is(lt.as_slice(), 0, lt.len(), close_w.as_slice()) {
                    end_span = line.span;
                    let consumed = take_line(lexer);
                }
            },
            None => {},
        }
        Block::Figure(Figure { src, alt, caption, span: Span::new(opener.span.start, end_span.end) })
    }

    /// Split one table row line into cells: the text is split on `|`, the
    /// leading empty split and empty cells are dropped, and each cell's
    /// content is its trimmed text parsed as inlines.
    fn parse_table_row(&self, t: &[u8], base: u32) -> (r: Vec<TableCell>)
        requires
            base + t@.len() <= u32::MAX,
        ensures
            cells_in_range(r@, base as int, base + t@.len()),
            cells_match(r@, t@, base as int, row_cells_from(t@, 0, true)),
    {
        let n = t.len();
        let mut cells: Vec<TableCell> = Vec::new();
        let mut seg_start: usize = 0;
        let mut offset: u32 = base;
        let mut first = true;
        let ghost mut done: Seq<(int, int)> = Seq::empty();
        proof {
            assert(Seq::<(int, int)>::empty() + row_cells_from(t@, 0, true) =~= row_cells_from(
                t@,
                0,
                true,
            ));
        }
        loop
            invariant_except_break
                cells_in_range(cells@, base as int, offset as int),
                row_cells_from(t@, 0, true) == done + row_cells_from(
                    t@,
                    seg_start as int,
                    first,
                ),
            invariant
                n == t@.len(),
                base + n <= u32::MAX,
                seg_start <= n,
                offset == base + seg_start,
                cells_match(cells@, t@, base as int, done),
            ensures
                cells_in_range(cells@, base as int, base + n),
                cells_match(cells@, t@, base as int, row_cells_from(t@, 0, true)),
            decreases n - seg_start,
        {
            let ghost seg0 = seg_start as int;
            let ghost first0 = first;
            let ghost pre = done;
            let ghost cells0 = cells@;
            let (p, last) = match find_byte_in(t, seg_start, n, 124) {
                Some(p) => (p, false),
                None => (n, true),
            };
            proof {
                assert(p as int == find_byte_spec(t@, seg0, n as int, 124));
            }
            if first {
                first = false;
            } else {
                let (clo, chi) = trim_bounds(t, seg_start, p);
                if clo < chi {
                    let content_slice = vstd::slice::slice_subrange(t, clo, chi);
                    let content = crate::inline::parse_inlines(content_slice, offset);
                    let span = Span::new(offset, offset + (p - seg_start) as u32);
                    proof {
                        lemma_inlines_in_range_wf(
                            content@,
                            offset as int,
                            offset + (chi - clo),
                            span,
                        );
                    }
                    cells.push(TableCell { content, span });
                    proof {
                        done = done.push((seg0, p as int));
                        assert(cells_match(cells@, t@, base as int, done)) by {
                            assert forall|k: int| 0 <= k < cells@.len() implies {
                                let a = done[k].0;
                                let pp = done[k].1;
                                let cell = #[trigger] cells@[k];
                                &&& cell.span.start as int == base + a
                                &&& cell.span.end as int == base + pp
                                &&& crate::inline::inline_run_matches_text(
                                    cell.content@,
                                    t@.subrange(
                                        crate::bytes::trim_lo(t@, a, pp),
                                        crate::bytes::trim_hi(t@, a, pp),
                                    ),
                                    base + a,
                                )
                            } by {
                                if k < cells@.len() - 1 {
                                    assert(cells@[k] == cells0[k]);
                                }
                            }
                        }
                    }
                }
            }
            if last {
                proof {
                    assert(cells_in_range(cells@, base as int, base + n));
                    assert(row_cells_from(t@, 0, true) =~= done);
                }
                break;
            }
            proof {
                let here: Seq<(int, int)> = if first0 || crate::bytes::trim_lo(t@, seg0, p as int)
                    >= crate::bytes::trim_hi(t@, seg0, p as int) {
                    seq![]
                } else {
                    seq![(seg0, p as int)]
                };
                assert(row_cells_from(t@, seg0, first0) == here + row_cells_from(
                    t@,
                    p + 1,
                    false,
                ));
                assert(pre + (here + row_cells_from(t@, p + 1, false)) =~= done
                    + row_cells_from(t@, p + 1, false));
            }
            offset = offset + (p - seg_start) as u32 + 1;
            seg_start = p + 1;
        }
        cells
    }

    /// A `::table` block: `|` rows, an optional `|---|` separator line, and
    /// a `::` closer. Only the first row, before any separator, is a header
    /// row. A non-table line before the closer records an error.
    fn parse_table_block(&mut self, lexer: &mut Lexer, input: &[u8]) -> (r: Block)
        requires
            old(lexer).wf(),
            old(lexer).inp() == input@,
            old(lexer).cursor() < input@.len(),
        ensures
            final(lexer).wf(),
            final(lexer).inp() == input@,
            old(lexer).cursor() < final(lexer).cursor() <= input@.len(),
            block_wf(r),
            old(lexer).cursor() <= block_span(r).start as int,
            block_span(r).end as int <= final(lexer).cursor(),
            r matches Block::Table(tb) && ({
                let s = old(lexer).inp();
                let c1 = next_line_start(s, old(lexer).cursor());
                &&& rows_match(tb.rows@, s, table_rows_from(s, c1, false, true))
                &&& final(lexer).cursor() == table_stop_from(s, c1)
                &&& (if table_term(s, c1) == 0 {
                    final(self).spec_errors() == old(self).spec_errors()
                } else {
                    &&& final(self).spec_errors().len() == old(self).spec_errors().len() + 1
                    &&& final(self).spec_errors().subrange(
                        0,
                        old(self).spec_errors().len() as int,
                    ) == old(self).spec_errors()
                    &&& final(self).spec_errors().last().kind
                        == crate::error::ParseErrorKind::UnclosedDelimiter
                    &&& final(self).spec_errors().last().message@ == kw_msg_unclosed()
                        + kw_colons_table()
                })
            }),
            final(self).spec_profile() == old(self).spec_profile(),
            final(self).spec_modules() == old(self).spec_modules(),
            final(self).spec_recover() == old(self).spec_recover(),
    {
        let ghost s = input@;
        let ghost c0 = old(lexer).cursor();
        let opener = take_line(lexer);
        let colons = kw_colons_v();
        let dashes = kw_dashes_v();
        let mut rows: Vec<TableRow> = Vec::new();
        let mut end_span = opener.span;
        let mut found_separator = false;
        let ghost c1 = next_line_start(s, c0);
        let ghost mut done: Seq<(int, bool)> = Seq::empty();
        proof {
            assert(Seq::<(int, bool)>::empty() + table_rows_from(s, c1, false, true)
                =~= table_rows_from(s, c1, false, true));
        }
        loop
            invariant_except_break
                table_stop_from(s, lexer.cursor()) == table_stop_from(s, c1),
                table_term(s, lexer.cursor()) == table_term(s, c1),
                self.spec_errors() == old(self).spec_errors(),
                table_rows_from(s, c1, false, true) == done + table_rows_from(
                    s,
                    lexer.cursor(),
                    found_separator,
                    rows@.len() == 0,
                ),
            invariant
                colons@ == kw_colons(),
                dashes@ == kw_dashes(),
                c1 == next_line_start(s, c0),
                0 <= c1 <= s.len(),
                old(lexer).inp() == s,
                old(lexer).cursor() == c0,
                s == input@,
                lexer.wf(),
                lexer.inp() == s,
                c0 < lexer.cursor() <= s.len(),
                opener.span.start as int == c0,
                opener.span.start <= end_span.end,
                end_span.end as int <= lexer.cursor(),
                rows_in_range(rows@, c0, end_span.end as int),
                rows_match(rows@, s, done),
                self.spec_profile() == old(self).spec_profile(),
                self.spec_modules() == old(self).spec_modules(),
                self.spec_recover() == old(self).spec_recover(),
            ensures
                lexer.wf(),
                lexer.inp() == s,
                c0 < lexer.cursor() <= s.len(),
                opener.span.start <= end_span.end,
                end_span.end as int <= lexer.cursor(),
                rows_in_range(rows@, c0, end_span.end as int),
                rows_match(rows@, s, table_rows_from(s, c1, false, true)),
                lexer.cursor() == table_stop_from(s, c1),
                (if table_term(s, c1) == 0 {
                    self.spec_errors() == old(self).spec_errors()
                } else {
                    &&& self.spec_errors().len() == old(self).spec_errors().len() + 1
                    &&& self.spec_errors().subrange(0, old(self).spec_errors().len() as int)
                        == old(self).spec_errors()
                    &&& self.spec_errors().last().kind
                        == crate::error::ParseErrorKind::UnclosedDelimiter
                    &&& self.spec_errors().last().message@ == kw_msg_unclosed()
                        + kw_colons_table()
                }),
                self.spec_profile() == old(self).spec_profile(),
                self.spec_modules() == old(self).spec_modules(),
                self.spec_recover() == old(self).spec_recover(),
            decreases s.len() - lexer.cursor(),
        {
            let ghost cn = lexer.cursor();
            let peeked = lexer.peek_line();
            let line = match peeked {
                Some(l) => l,
                None => {
                    proof {
                        assert(table_term(s, cn) == 0);
                        assert(table_rows_from(s, cn, found_separator, rows@.len() == 0)
                            =~= Seq::<(int, bool)>::empty());
                        assert(done + Seq::<(int, bool)>::empty() =~= done);
                    }
                    break;
                },
            };
            let lt = line.trimmed();
            proof {
                lemma_line_shape(s, cn);
                crate::bytes::lemma_trim_bounds(line.text@, 0, line.text@.len() as int);
                assert(lt@.subrange(0, lt@.len() as int) =~= lt@);
                assert(lt@ == crate::bytes::trim_of(line_text(s, cn)));
            }
            if crate::bytes::range_is(lt.as_slice(), 0, lt.len(), colons.as_slice()) {
                end_span = line.span;
                let consumed = take_line(lexer);
                proof {
                    assert(table_stop_from(s, cn) == next_line_start(s, cn));
                    assert(table_term(s, cn) == 0);
                    assert(table_rows_from(s, cn, found_separator, rows@.len() == 0)
                        =~= Seq::<(int, bool)>::empty());
                    assert(done + Seq::<(int, bool)>::empty() =~= done);
                    assert(table_rows_from(s, c1, false, true) =~= done);
                }
                break;
            }
            let starts_pipe = lt.len() > 0 && lt[0] == 124;
            if starts_pipe && crate::bytes::contains_sub(
                lt.as_slice(),
                0,
                lt.len(),
                dashes.as_slice(),
            ) {
                proof {
                    assert(table_stop_from(s, cn) == table_stop_from(s, next_line_start(s, cn)));
                    assert(table_term(s, cn) == table_term(s, next_line_start(s, cn)));
                }
                found_separator = true;
                let consumed = take_line(lexer);
                end_span = consumed.span;
                continue;
            }
            if starts_pipe {
                proof {
                    assert(table_stop_from(s, cn) == table_stop_from(s, next_line_start(s, cn)));
                    assert(table_term(s, cn) == table_term(s, next_line_start(s, cn)));
                }
                let cells = self.parse_table_row(lt.as_slice(), line.span.start);
                let is_header = !found_separator && rows.len() == 0;
                let row = TableRow { cells, header: is_header, span: line.span };
                proof {
                    lemma_cells_in_range_wf(
                        row.cells@,
                        line.span.start as int,
                        line.span.start + lt@.len(),
                        line.span,
                    );
                }
                let ghost pre = done;
                let ghost rows0 = rows@;
                let ghost first0 = rows@.len() == 0;
                rows.push(row);
                let consumed = take_line(lexer);
                end_span = consumed.span;
                proof {
                    done = done.push((cn, !found_separator && first0));
                    assert(rows_match(rows@, s, done)) by {
                        assert forall|k: int| 0 <= k < rows@.len() implies {
                            let rw = #[trigger] rows@[k];
                            &&& rw.span.start as int == done[k].0
                            &&& rw.span.end as int == line_text_end(s, done[k].0)
                            &&& rw.header == done[k].1
                        } by {
                            if k < rows@.len() - 1 {
                                assert(rows@[k] == rows0[k]);
                            }
                        }
                    }
                    assert(table_rows_from(s, cn, found_separator, first0) == seq![
                        (cn, !found_separator && first0),
                    ] + table_rows_from(s, next_line_start(s, cn), found_separator, false));
                    assert(pre + (seq![(cn, !found_separator && first0)] + table_rows_from(
                        s,
                        next_line_start(s, cn),
                        found_separator,
                        false,
                    )) =~= done + table_rows_from(s, next_line_start(s, cn), found_separator, false));
                }
                continue;
            }
            let name = kw_colons_table_v();
            self.record_error(
                ParseError::unclosed_delimiter(name.as_slice(), Some(opener.span)),
            );
            proof {
                assert(table_term(s, cn) == 1);
                assert(self.spec_errors().subrange(0, old(self).spec_errors().len() as int)
                    =~= old(self).spec_errors());
                assert(table_stop_from(s, cn) == cn);
                assert(table_rows_from(s, cn, found_separator, rows@.len() == 0)
                    =~= Seq::<(int, bool)>::empty());
                assert(done + Seq::<(int, bool)>::empty() =~= done);
                assert(table_rows_from(s, c1, false, true) =~= done);
            }
            break;
        }
        let span = Span::new(opener.span.start, end_span.end);
        proof {
            lemma_rows_in_range_wf(rows@, c0, end_span.end as int, span);
        }
        Block::Table(Table { rows, span })
    }

    /// A `::footnotes` block: each `[^label]: body` line defines one
    /// footnote whose body is a single paragraph; a `::` line closes.
    #[verifier::rlimit(100)]
    #[verifier::spinoff_prover]
    fn parse_footnotes_block(&self, lexer: &mut Lexer, input: &[u8]) -> (r: Block)
        requires
            old(lexer).wf(),
            old(lexer).inp() == input@,
            old(lexer).cursor() < input@.len(),
        ensures
            final(lexer).wf(),
            final(lexer).inp() == input@,
            old(lexer).cursor() < final(lexer).cursor() <= input@.len(),
            block_wf(r),
            old(lexer).cursor() <= block_span(r).start as int,
            block_span(r).end as int <= final(lexer).cursor(),
            r matches Block::Footnotes(fb) && ({
                let s = old(lexer).inp();
                let c1 = next_line_start(s, old(lexer).cursor());
                let cl = fence_close_at(s, c1, kw_colons());
                &&& foot_defs_match(fb.defs@, s, foot_defs_from(s, c1))
                &&& final(lexer).cursor() == (if cl < s.len() {
                    next_line_start(s, cl)
                } else {
                    s.len() as int
                })
            }),
    {
        let ghost s = input@;
        let ghost c0 = old(lexer).cursor();
        let opener = take_line(lexer);
        let colons = kw_colons_v();
        let open_mark = kw_footref_open_v();
        let sep_mark = kw_footdef_sep_v();
        let mut defs: Vec<FootnoteDef> = Vec::new();
        let mut end_span = opener.span;
        let ghost c1 = next_line_start(s, c0);
        let ghost mut done: Seq<(int, int)> = Seq::empty();
        proof {
            assert(Seq::<(int, int)>::empty() + foot_defs_from(s, c1) =~= foot_defs_from(s, c1));
        }
        let ghost cl = fence_close_at(s, c1, kw_colons());
        loop
            invariant_except_break
                foot_defs_from(s, c1) == done + foot_defs_from(s, lexer.cursor()),
                fence_close_at(s, lexer.cursor(), kw_colons()) == cl,
            invariant
                cl == fence_close_at(s, c1, kw_colons()),
                colons@ == kw_colons(),
                c1 == next_line_start(s, c0),
                0 <= c1 <= s.len(),
                old(lexer).inp() == s,
                old(lexer).cursor() == c0,
                s == input@,
                lexer.wf(),
                lexer.inp() == s,
                c0 < lexer.cursor() <= s.len(),
                opener.span.start as int == c0,
                opener.span.start <= end_span.end,
                end_span.end as int <= lexer.cursor(),
                defs_in_range(defs@, c0, end_span.end as int),
                foot_defs_match(defs@, s, done),
                open_mark@ == kw_footref_open(),
                sep_mark@ == kw_footdef_sep(),
            ensures
                lexer.wf(),
                lexer.inp() == s,
                c0 < lexer.cursor() <= s.len(),
                opener.span.start <= end_span.end,
                end_span.end as int <= lexer.cursor(),
                defs_in_range(defs@, c0, end_span.end as int),
                foot_defs_match(defs@, s, foot_defs_from(s, c1)),
                lexer.cursor() == (if cl < s.len() {
                    next_line_start(s, cl)
                } else {
                    s.len() as int
                }),
            decreases s.len() - lexer.cursor(),
        {
            let ghost cn = lexer.cursor();
            let peeked = lexer.peek_line();
            let line = match peeked {
                Some(l) => l,
                None => {
                    proof {
                        assert(foot_defs_from(s, cn) =~= Seq::<(int, int)>::empty());
                        assert(done + Seq::<(int, int)>::empty() =~= done);
                    }
                    break;
                },
            };
            let lt = line.trimmed();
            proof {
                lemma_line_shape(s, cn);
                crate::bytes::lemma_trim_bounds(line.text@, 0, line.text@.len() as int);
                assert(lt@.subrange(0, lt@.len() as int) =~= lt@);
                assert(lt@ == crate::bytes::trim_of(line_text(s, cn)));
            }
            if crate::bytes::range_is(lt.as_slice(), 0, lt.len(), colons.as_slice()) {
                end_span = line.span;
                let consumed = take_line(lexer);
                proof {
                    assert(foot_defs_from(s, cn) =~= Seq::<(int, int)>::empty());
                    assert(done + Seq::<(int, int)>::empty() =~= done);
                    assert(foot_defs_from(s, c1) =~= done);
                    assert(fence_close_at(s, cn, kw_colons()) == cn);
                }
                break;
            }
            let ghost pre = done;
            let ghost defs0 = defs@;
            if starts_with_at(lt.as_slice(), 0, lt.len(), open_mark.as_slice()) {
                proof {
                    assert(open_mark@.len() == 2);
                    assert(sep_mark@.len() == 2);
                    crate::bytes::lemma_find_word_props(lt@, 2, kw_footdef_sep());
                }
                // A match cannot start inside the two-byte `[^` opener, so
                // the search may begin at its end.
                match crate::bytes::find_sub(lt.as_slice(), 2, lt.len(), sep_mark.as_slice()) {
                    Some(be) => {
                        proof {
                            let fw = crate::bytes::find_word(lt@, 2, kw_footdef_sep());
                            if fw < be as int {
                                assert(matches_at(lt@, fw, kw_footdef_sep()));
                                assert(false);
                            }
                            if (be as int) < fw {
                                assert(!matches_at(lt@, be as int, kw_footdef_sep()));
                                assert(false);
                            }
                        }
                        let label = copy_range(lt.as_slice(), 2, be);
                        let (clo, chi) = trim_bounds(lt.as_slice(), be + 2, lt.len());
                        let content_slice = vstd::slice::slice_subrange(lt.as_slice(), clo, chi);
                        let content = crate::inline::parse_inlines(content_slice, line.span.start);
                        proof {
                            lemma_inlines_in_range_wf(
                                content@,
                                line.span.start as int,
                                line.span.start + (chi - clo),
                                line.span,
                            );
                        }
                        let mut blocks: Vec<Block> = Vec::new();
                        blocks.push(Block::Paragraph(Paragraph { content, span: line.span }));
                        let def = FootnoteDef { label, blocks, span: line.span };
                        proof {
                            assert(blocks_in_range(
                                def.blocks@,
                                line.span.start as int,
                                line.span.end as int,
                            ));
                            lemma_blocks_in_range_wf(
                                def.blocks@,
                                line.span.start as int,
                                line.span.end as int,
                                line.span,
                            );
                        }
                        defs.push(def);
                        proof {
                            done = done.push((cn, be as int));
                            assert(label@ =~= lt@.subrange(2, be as int));
                            assert(foot_defs_match(defs@, s, done)) by {
                                assert forall|k: int| 0 <= k < defs@.len() implies {
                                    let c = done[k].0;
                                    let bee = done[k].1;
                                    let ltt = crate::bytes::trim_of(line_text(s, c));
                                    let d = #[trigger] defs@[k];
                                    &&& d.label@ == ltt.subrange(2, bee)
                                    &&& d.span.start as int == c
                                    &&& d.span.end as int == line_text_end(s, c)
                                    &&& d.blocks@.len() == 1
                                    &&& (d.blocks@[0] matches Block::Paragraph(p) && {
                                        &&& p.span == d.span
                                        &&& crate::inline::inline_run_matches_text(
                                            p.content@,
                                            ltt.subrange(
                                                crate::bytes::trim_lo(ltt, bee + 2, ltt.len() as int),
                                                crate::bytes::trim_hi(ltt, bee + 2, ltt.len() as int),
                                            ),
                                            c,
                                        )
                                    })
                                } by {
                                    if k < defs@.len() - 1 {
                                        assert(defs@[k] == defs0[k]);
                                    }
                                }
                            }
                            assert(foot_defs_from(s, cn) == seq![(cn, be as int)]
                                + foot_defs_from(s, next_line_start(s, cn)));
                            assert(pre + (seq![(cn, be as int)] + foot_defs_from(
                                s,
                                next_line_start(s, cn),
                            )) =~= done + foot_defs_from(s, next_line_start(s, cn)));
                        }
                    },
                    None => {
                        proof {
                            let fw = crate::bytes::find_word(lt@, 2, kw_footdef_sep());
                            if fw < lt@.len() {
                                assert(matches_at(lt@, fw, kw_footdef_sep()));
                                assert(false);
                            }
                            assert(foot_defs_from(s, cn) == seq![] + foot_defs_from(
                                s,
                                next_line_start(s, cn),
                            ));
                            assert(pre + (seq![] + foot_defs_from(s, next_line_start(s, cn)))
                                =~= done + foot_defs_from(s, next_line_start(s, cn)));
                        }
                    },
                }
            } else {
                proof {
                    assert(foot_defs_from(s, cn) == seq![] + foot_defs_from(
                        s,
                        next_line_start(s, cn),
                    ));
                    assert(pre + (seq![] + foot_defs_from(s, next_line_start(s, cn))) =~= done
                        + foot_defs_from(s, next_line_start(s, cn)));
                }
            }
            let consumed = take_line(lexer);
            end_span = consumed.span;
        }
        let span = Span::new(opener.span.start, end_span.end);
        proof {
            lemma_defs_in_range_wf(defs@, c0, end_span.end as int, span);
        }
        Block::Footnotes(Footnotes { defs, span })
    }
}

impl Parser {
    /// Close off a pending list item, if one is open: its collected text
    /// becomes a single paragraph.
    fn finalize_item(
        &self,
        input: &[u8],
        items: &mut Vec<ListItem>,
        start: Option<u32>,
        end: u32,
        lo: Ghost<int>,
    )
        requires
            match start {
                Some(ps) => {
                    &&& lo@ <= ps <= end
                    &&& end as int <= input@.len()
                    &&& items_in_range(old(items)@, lo@, ps as int)
                },
                None => true,
            },
        ensures
            match start {
                Some(ps) => {
                    &&& items_in_range(final(items)@, lo@, end as int)
                    &&& final(items)@.len() == old(items)@.len() + 1
                    &&& final(items)@.subrange(0, old(items)@.len() as int) == old(items)@
                    &&& ({
                        let it = final(items)@.last();
                        &&& it.span.start == ps
                        &&& it.span.end == end
                        &&& it.blocks@.len() == 1
                        &&& (it.blocks@[0] matches Block::Paragraph(p) && {
                            &&& p.span == it.span
                            &&& crate::inline::inline_run_matches(
                                p.content@,
                                input@,
                                ps as int,
                                end as int,
                            )
                        })
                    })
                },
                None => final(items)@ == old(items)@,
            },
    {
        match start {
            Some(ps) => {
                let content_slice = vstd::slice::slice_subrange(
                    input,
                    ps as usize,
                    end as usize,
                );
                let content = crate::inline::parse_inlines(content_slice, ps);
                let span = Span::new(ps, end);
                proof {
                    lemma_inlines_in_range_wf(content@, ps as int, end as int, span);
                }
                let mut blocks: Vec<Block> = Vec::new();
                blocks.push(Block::Paragraph(Paragraph { content, span }));
                let item = ListItem { blocks, span };
                proof {
                    lemma_blocks_in_range_wf(item.blocks@, ps as int, end as int, span);
                }
                items.push(item);
                proof {
                    assert(items@.subrange(0, items@.len() - 1) =~= old(items)@);
                }
            },
            None => {},
        }
    }

    /// A `::list` block: `ordered`/`unordered` and `start=N` attributes on
    /// the opener; `- ` lines begin items, `| ` lines continue them, blank
    /// lines are allowed, `::` closes. A block-starter line before the
    /// closer records an `UnclosedDelimiter`, any other line an
    /// `InvalidSyntax` error; both terminate the list.
    #[verifier::rlimit(100)]
    fn parse_list_block(&mut self, lexer: &mut Lexer, input: &[u8]) -> (r: Block)
        requires
            old(lexer).wf(),
            old(lexer).inp() == input@,
            old(lexer).cursor() < input@.len(),
        ensures
            final(lexer).wf(),
            final(lexer).inp() == input@,
            old(lexer).cursor() < final(lexer).cursor() <= input@.len(),
            block_wf(r),
            old(lexer).cursor() <= block_span(r).start as int,
            block_span(r).end as int <= final(lexer).cursor(),
            r matches Block::List(l) && ({
                let s = old(lexer).inp();
                let c0 = old(lexer).cursor();
                let c1 = next_line_start(s, c0);
                let t = crate::bytes::trim_of(line_text(s, c0));
                let named = kw_colons().len() + kw_list().len() <= t.len() && matches_at(
                    t,
                    0,
                    kw_colons(),
                ) && matches_at(t, kw_colons().len() as int, kw_list());
                let alo: int = if named {
                    kw_colons().len() + kw_list().len() as int
                } else {
                    t.len() as int
                };
                &&& l.kind == list_kind_from(t, alo, ListKind::Unordered)
                &&& (match l.start {
                    Some(v) => list_start_from(t, alo, None) == Some(v as int),
                    None => list_start_from(t, alo, None) is None,
                })
                &&& items_match(l.items@, s, list_items_from(s, c1, None))
                &&& final(lexer).cursor() == list_stop_from(s, c1)
                &&& (if list_term(s, c1) == 0 {
                    final(self).spec_errors() == old(self).spec_errors()
                } else {
                    &&& final(self).spec_errors().len() == old(self).spec_errors().len() + 1
                    &&& final(self).spec_errors().subrange(
                        0,
                        old(self).spec_errors().len() as int,
                    ) == old(self).spec_errors()
                    &&& (if list_term(s, c1) == 1 {
                        &&& final(self).spec_errors().last().kind
                            == crate::error::ParseErrorKind::UnclosedDelimiter
                        &&& final(self).spec_errors().last().message@ == kw_msg_unclosed()
                            + kw_colons_list()
                    } else {
                        &&& final(self).spec_errors().last().kind
                            == crate::error::ParseErrorKind::InvalidSyntax
                        &&& final(self).spec_errors().last().message@ == kw_msg_invalid()
                            + kw_list_item()
                    })
                })
            }),
            final(self).spec_profile() == old(self).spec_profile(),
            final(self).spec_modules() == old(self).spec_modules(),
            final(self).spec_recover() == old(self).spec_recover(),
    {
        let ghost s = input@;
        let ghost c0 = old(lexer).cursor();
        let opener = take_line(lexer);
        let ot = opener.trimmed();
        let n = ot.len();
        let colons = kw_colons_v();
        let list_w = kw_list_v();
        let mut alo = n;
        if starts_with_at(ot.as_slice(), 0, n, colons.as_slice()) {
            if starts_with_at(ot.as_slice(), 2, n, list_w.as_slice()) {
                alo = 2 + list_w.len();
            }
        }
        let ghost talo = alo as int;
        let ord_w = kw_ordered_v();
        let unord_w = kw_unordered_v();
        let start_w = kw_start_eq_v();
        let mut kind = ListKind::Unordered;
        let mut start_num: Option<u64> = None;
        let mut q = alo;
        loop
            invariant
                ot@ == crate::bytes::trim_of(line_text(s, c0)),
                n == ot@.len(),
                talo == alo as int,
                alo <= q,
                q <= n,
                ord_w@ == kw_ordered(),
                unord_w@ == kw_unordered(),
                start_w@ == kw_start_eq(),
                list_kind_from(ot@, talo, ListKind::Unordered) == list_kind_from(
                    ot@,
                    q as int,
                    kind,
                ),
                list_start_from(ot@, talo, None) == list_start_from(
                    ot@,
                    q as int,
                    match start_num {
                        Some(v) => Some(v as int),
                        None => None,
                    },
                ),
            ensures
                kind == list_kind_from(ot@, talo, ListKind::Unordered),
                (match start_num {
                    Some(v) => list_start_from(ot@, talo, None) == Some(v as int),
                    None => list_start_from(ot@, talo, None) is None,
                }),
            decreases n - q,
        {
            let ghost q0 = q as int;
            let ghost kind0 = kind;
            let ghost sn0: Option<int> = match start_num {
                Some(v) => Some(v as int),
                None => None,
            };
            let a = crate::bytes::first_non_ws(ot.as_slice(), q, n);
            if a >= n {
                break;
            }
            proof {
                crate::bytes::lemma_scan_ws_bounds(ot@, q as int, n as int);
                crate::bytes::lemma_scan_to_ws_bounds(ot@, a as int, n as int);
            }
            let e = crate::bytes::first_ws(ot.as_slice(), a, n);
            proof {
                assert(!is_ws_byte(ot@[a as int]));
                assert(e > a);
            }
            let ghost seg = ot@.subrange(a as int, e as int);
            if crate::bytes::range_is(ot.as_slice(), a, e, ord_w.as_slice()) {
                kind = ListKind::Ordered;
                proof {
                    if a + kw_start_eq().len() <= e as int && matches_at(ot@, a as int, kw_start_eq()) {
                        assert(seg[0] == ot@[a as int]);
                        assert(ot@[a as int + 0] == kw_start_eq()[0]);
                        assert(kw_ordered()[0] == 111 && kw_start_eq()[0] == 115);
                        assert(false);
                    }
                }
            } else if crate::bytes::range_is(ot.as_slice(), a, e, unord_w.as_slice()) {
                kind = ListKind::Unordered;
                proof {
                    if a + kw_start_eq().len() <= e as int && matches_at(ot@, a as int, kw_start_eq()) {
                        assert(seg[0] == ot@[a as int]);
                        assert(ot@[a as int + 0] == kw_start_eq()[0]);
                        assert(kw_unordered()[0] == 117 && kw_start_eq()[0] == 115);
                        assert(false);
                    }
                }
            } else if starts_with_at(ot.as_slice(), a, e, start_w.as_slice()) {
                start_num = crate::bytes::parse_u64_range(ot.as_slice(), a + start_w.len(), e);
                proof {
                    if seg == kw_ordered() {
                        assert(ot@[a as int + 0] == kw_start_eq()[0]);
                        assert(seg[0] == ot@[a as int]);
                        assert(kw_ordered()[0] == 111 && kw_start_eq()[0] == 115);
                        assert(false);
                    }
                    if seg == kw_unordered() {
                        assert(ot@[a as int + 0] == kw_start_eq()[0]);
                        assert(seg[0] == ot@[a as int]);
                        assert(kw_unordered()[0] == 117 && kw_start_eq()[0] == 115);
                        assert(false);
                    }
                }
            }
            proof {
                assert(list_kind_from(ot@, q0, kind0) == list_kind_from(ot@, e as int, kind));
                assert(list_start_from(ot@, q0, sn0) == list_start_from(
                    ot@,
                    e as int,
                    match start_num {
                        Some(v) => Some(v as int),
                        None => None,
                    },
                ));
            }
            q = e;
        }
        let dash_w = kw_dash_item_v();
        let pipe_w = kw_pipe_cont_v();
        let ticks = kw_backticks_v();
        let dashes = kw_dashes_v();
        let meta_rule = kw_meta_rule_v();
        let at_profile = kw_at_profile_v();
        let at_modules = kw_at_modules_v();
        let mut items: Vec<ListItem> = Vec::new();
        let mut item_start: Option<u32> = None;
        let mut item_end: u32 = opener.span.end;
        let mut end_span = opener.span;
        let mut last_span = opener.span;
        let ghost c1 = next_line_start(s, c0);
        let ghost mut done: Seq<(int, int)> = Seq::empty();
        proof {
            assert(Seq::<(int, int)>::empty() + list_items_from(s, c1, None) =~= list_items_from(
                s,
                c1,
                None,
            ));
        }
        loop
            invariant_except_break
                end_span == last_span,
                item_end <= last_span.end,
                list_stop_from(s, lexer.cursor()) == list_stop_from(s, c1),
                list_term(s, lexer.cursor()) == list_term(s, c1),
                self.spec_errors() == old(self).spec_errors(),
                list_items_from(s, c1, None) == done + list_items_from(
                    s,
                    lexer.cursor(),
                    match item_start {
                        Some(ps) => Some((ps as int, item_end as int)),
                        None => None,
                    },
                ),
                match item_start {
                    Some(ps) => {
                        &&& c0 <= ps <= item_end
                        &&& items_in_range(items@, c0, ps as int)
                    },
                    None => items_in_range(items@, c0, item_end as int),
                },
            invariant
                colons@ == kw_colons(),
                dash_w@ == kw_dash_item(),
                pipe_w@ == kw_pipe_cont(),
                ticks@ == kw_backticks(),
                dashes@ == kw_dashes(),
                meta_rule@ == kw_meta_rule(),
                at_profile@ == kw_at_profile(),
                at_modules@ == kw_at_modules(),
                c1 == next_line_start(s, c0),
                0 <= c1 <= s.len(),
                old(lexer).inp() == s,
                old(lexer).cursor() == c0,
                s == input@,
                lexer.wf(),
                lexer.inp() == s,
                c0 < lexer.cursor() <= s.len(),
                opener.span.start as int == c0,
                opener.span.start <= opener.span.end,
                span_ordered(last_span),
                opener.span.start <= last_span.end,
                last_span.end as int <= lexer.cursor(),
                item_end as int <= lexer.cursor(),
                items_match(items@, s, done),
                self.spec_profile() == old(self).spec_profile(),
                self.spec_modules() == old(self).spec_modules(),
                self.spec_recover() == old(self).spec_recover(),
            ensures
                lexer.wf(),
                lexer.inp() == s,
                c0 < lexer.cursor() <= s.len(),
                span_ordered(end_span),
                opener.span.start <= end_span.end,
                end_span.end as int <= lexer.cursor(),
                items_in_range(items@, c0, end_span.end as int),
                items_match(items@, s, list_items_from(s, c1, None)),
                lexer.cursor() == list_stop_from(s, c1),
                (if list_term(s, c1) == 0 {
                    self.spec_errors() == old(self).spec_errors()
                } else {
                    &&& self.spec_errors().len() == old(self).spec_errors().len() + 1
                    &&& self.spec_errors().subrange(0, old(self).spec_errors().len() as int)
                        == old(self).spec_errors()
                    &&& (if list_term(s, c1) == 1 {
                        &&& self.spec_errors().last().kind
                            == crate::error::ParseErrorKind::UnclosedDelimiter
                        &&& self.spec_errors().last().message@ == kw_msg_unclosed()
                            + kw_colons_list()
                    } else {
                        &&& self.spec_errors().last().kind
                            == crate::error::ParseErrorKind::InvalidSyntax
                        &&& self.spec_errors().last().message@ == kw_msg_invalid()
                            + kw_list_item()
                    })
                }),
                self.spec_profile() == old(self).spec_profile(),
                self.spec_modules() == old(self).spec_modules(),
                self.spec_recover() == old(self).spec_recover(),
            decreases s.len() - lexer.cursor(),
        {
            let ghost cn = lexer.cursor();
            let ghost pend: Option<(int, int)> = match item_start {
                Some(ps) => Some((ps as int, item_end as int)),
                None => None,
            };
            let ghost flushed: Seq<(int, int)> = match pend {
                Some(pr) => seq![pr],
                None => seq![],
            };
            let peeked = lexer.peek_line();
            let line = match peeked {
                Some(l) => l,
                None => {
                    proof {
                        assert(list_term(s, cn) == 0);
                        assert(list_items_from(s, cn, pend) =~= Seq::<(int, int)>::empty());
                        assert(done + Seq::<(int, int)>::empty() =~= done);
                    }
                    break;
                },
            };
            let ghost raw = line_text(s, cn);
            let lt = line.trimmed();
            proof {
                lemma_line_shape(s, cn);
                crate::bytes::lemma_trim_bounds(line.text@, 0, line.text@.len() as int);
                assert(lt@.subrange(0, lt@.len() as int) =~= lt@);
                assert(lt@ == crate::bytes::trim_of(raw));
            }
            if crate::bytes::range_is(lt.as_slice(), 0, lt.len(), colons.as_slice()) {
                let consumed = take_line(lexer);
                self.finalize_item(input, &mut items, item_start, item_end, Ghost(c0));
                proof {
                    assert(list_stop_from(s, cn) == next_line_start(s, cn));
                    assert(list_term(s, cn) == 0);
                    assert(list_items_from(s, cn, pend) == flushed);
                    done = done + flushed;
                    if pend is Some {
                        assert(items_match(items@, s, done)) by {
                            assert forall|k: int| 0 <= k < items@.len() implies {
                                let it = #[trigger] items@[k];
                                &&& it.span.start as int == done[k].0
                                &&& it.span.end as int == done[k].1
                                &&& it.blocks@.len() == 1
                                &&& (it.blocks@[0] matches Block::Paragraph(p) && {
                                    &&& p.span == it.span
                                    &&& crate::inline::inline_run_matches(p.content@, s, done[k].0, done[k].1)
                                })
                            } by {
                                if k < items@.len() - 1 {
                                    assert(items@[k] == items@.subrange(0, items@.len() - 1)[k]);
                                }
                            }
                        }
                    } else {
                        assert(done =~= done + flushed);
                    }
                    assert(list_items_from(s, c1, None) =~= done);
                }
                item_start = None;
                end_span = consumed.span;
                break;
            }
            if starts_with_at(lt.as_slice(), 0, lt.len(), dash_w.as_slice()) {
                let consumed = take_line(lexer);
                self.finalize_item(input, &mut items, item_start, item_end, Ghost(c0));
                let ghost tlo = crate::bytes::trim_lo(raw, 0, raw.len() as int);
                proof {
                    assert(list_stop_from(s, cn) == list_stop_from(s, next_line_start(s, cn)));
                    assert(list_term(s, cn) == list_term(s, next_line_start(s, cn)));
                }
                proof {
                    crate::bytes::lemma_trim_bounds(raw, 0, raw.len() as int);
                    assert(matches_at(raw, tlo, kw_dash_item())) by {
                        assert forall|k: int| 0 <= k < kw_dash_item().len() implies raw[tlo + k]
                            == #[trigger] kw_dash_item()[k] by {
                            assert(lt@[k] == raw[tlo + k]);
                        }
                    }
                    crate::bytes::lemma_find_word_props(raw, 0, kw_dash_item());
                }
                let d = match crate::bytes::find_sub(
                    consumed.text.as_slice(),
                    0,
                    consumed.text.len(),
                    dash_w.as_slice(),
                ) {
                    Some(d) => {
                        proof {
                            let fw = crate::bytes::find_word(raw, 0, kw_dash_item());
                            if fw < d as int {
                                assert(matches_at(raw, fw, kw_dash_item()));
                                assert(false);
                            }
                            if (d as int) < fw {
                                assert(!matches_at(raw, d as int, kw_dash_item()));
                                assert(false);
                            }
                        }
                        d + dash_w.len()
                    },
                    None => {
                        proof {
                            assert(false);
                        }
                        0
                    },
                };
                item_start = Some(consumed.span.start + d as u32);
                item_end = consumed.span.end;
                last_span = consumed.span;
                end_span = consumed.span;
                proof {
                    done = done + flushed;
                    assert(items_match(items@, s, done)) by {
                        assert forall|k: int| 0 <= k < items@.len() implies {
                            let it = #[trigger] items@[k];
                            &&& it.span.start as int == done[k].0
                            &&& it.span.end as int == done[k].1
                            &&& it.blocks@.len() == 1
                            &&& (it.blocks@[0] matches Block::Paragraph(p) && {
                                &&& p.span == it.span
                                &&& crate::inline::inline_run_matches(p.content@, s, done[k].0, done[k].1)
                            })
                        } by {
                            if pend is Some && k < items@.len() - 1 {
                                assert(items@[k] == items@.subrange(0, items@.len() - 1)[k]);
                            }
                        }
                    }
                    let a = cn + crate::bytes::find_word(raw, 0, kw_dash_item())
                        + kw_dash_item().len();
                    assert(list_items_from(s, cn, pend) == flushed + list_items_from(
                        s,
                        next_line_start(s, cn),
                        Some((a, line_text_end(s, cn))),
                    ));
                    assert((done.subrange(0, done.len() - flushed.len()) + flushed)
                        + list_items_from(s, next_line_start(s, cn), Some((a, line_text_end(s, cn))))
                        =~= done.subrange(0, done.len() - flushed.len()) + (flushed
                        + list_items_from(s, next_line_start(s, cn), Some((a, line_text_end(s, cn))))));
                    assert(done.subrange(0, done.len() - flushed.len()) =~= done.subrange(
                        0,
                        done.len() - flushed.len(),
                    ));
                }
                continue;
            }
            if starts_with_at(lt.as_slice(), 0, lt.len(), pipe_w.as_slice()) {
                proof {
                    assert(list_stop_from(s, cn) == list_stop_from(s, next_line_start(s, cn)));
                    assert(list_term(s, cn) == list_term(s, next_line_start(s, cn)));
                }
                let consumed = take_line(lexer);
                item_end = consumed.span.end;
                last_span = consumed.span;
                end_span = consumed.span;
                continue;
            }
            if line.is_blank() {
                proof {
                    assert(crate::bytes::seq_blank(raw));
                    assert(list_stop_from(s, cn) == list_stop_from(s, next_line_start(s, cn)));
                    assert(list_term(s, cn) == list_term(s, next_line_start(s, cn)));
                }
                let consumed = take_line(lexer);
                last_span = consumed.span;
                end_span = consumed.span;
                continue;
            }
            let is_starter = starts_with_at(lt.as_slice(), 0, lt.len(), colons.as_slice())
                || starts_with_at(lt.as_slice(), 0, lt.len(), ticks.as_slice()) || (lt.len() > 0
                && lt[0] == 35) || starts_with_at(lt.as_slice(), 0, lt.len(), at_profile.as_slice())
                || starts_with_at(lt.as_slice(), 0, lt.len(), at_modules.as_slice())
                || crate::bytes::range_is(lt.as_slice(), 0, lt.len(), dashes.as_slice())
                || starts_with_at(lt.as_slice(), 0, lt.len(), meta_rule.as_slice());
            if is_starter {
                let name = kw_colons_list_v();
                self.record_error(
                    ParseError::unclosed_delimiter(name.as_slice(), Some(opener.span)),
                );
                proof {
                    assert(list_breaker(lt@));
                    assert(list_term(s, cn) == 1);
                    assert(self.spec_errors().subrange(0, old(self).spec_errors().len() as int)
                        =~= old(self).spec_errors());
                }
                self.finalize_item(input, &mut items, item_start, item_end, Ghost(c0));
                proof {
                    assert(list_stop_from(s, cn) == cn);
                    assert(list_items_from(s, cn, pend) == flushed);
                    done = done + flushed;
                    assert(items_match(items@, s, done)) by {
                        assert forall|k: int| 0 <= k < items@.len() implies {
                            let it = #[trigger] items@[k];
                            &&& it.span.start as int == done[k].0
                            &&& it.span.end as int == done[k].1
                            &&& it.blocks@.len() == 1
                            &&& (it.blocks@[0] matches Block::Paragraph(p) && {
                                &&& p.span == it.span
                                &&& crate::inline::inline_run_matches(p.content@, s, done[k].0, done[k].1)
                            })
                        } by {
                            if pend is Some && k < items@.len() - 1 {
                                assert(items@[k] == items@.subrange(0, items@.len() - 1)[k]);
                            }
                        }
                    }
                    assert(list_items_from(s, c1, None) =~= done);
                }
                item_start = None;
                end_span = last_span;
                break;
            }
            let ctx = kw_list_item_v();
            self.record_error(ParseError::invalid_syntax(ctx.as_slice(), Some(line.span)));
            proof {
                assert(!list_breaker(lt@));
                assert(list_term(s, cn) == 2);
                assert(self.spec_errors().subrange(0, old(self).spec_errors().len() as int)
                    =~= old(self).spec_errors());
            }
            self.finalize_item(input, &mut items, item_start, item_end, Ghost(c0));
            proof {
                assert(list_stop_from(s, cn) == cn);
                assert(list_items_from(s, cn, pend) == flushed);
                done = done + flushed;
                assert(items_match(items@, s, done)) by {
                    assert forall|k: int| 0 <= k < items@.len() implies {
                        let it = #[trigger] items@[k];
                        &&& it.span.start as int == done[k].0
                        &&& it.span.end as int == done[k].1
                        &&& it.blocks@.len() == 1
                        &&& (it.blocks@[0] matches Block::Paragraph(p) && {
                            &&& p.span == it.span
                            &&& crate::inline::inline_run_matches(p.content@, s, done[k].0, done[k].1)
                        })
                    } by {
                        if pend is Some && k < items@.len() - 1 {
                            assert(items@[k] == items@.subrange(0, items@.len() - 1)[k]);
                        }
                    }
                }
                assert(list_items_from(s, c1, None) =~= done);
            }
            item_start = None;
            end_span = last_span;
            break;
        }
        let span = Span::new(opener.span.start, end_span.end);
        proof {
            lemma_items_in_range_wf(items@, c0, end_span.end as int, span);
        }
        Block::List(List { kind, start: start_num, items, span })
    }
}


/// Cursor of the first line at or after `c` whose trimmed text is exactly
/// `closer`, or the input length when no such line exists.
pub open spec fn fence_close_at(s: Seq<u8>, c: int, closer: Seq<u8>) -> int
    decreases s.len() - c,
    when 0 <= c <= s.len()
    via fence_close_at_dec
{
    if c >= s.len() {
        s.len() as int
    } else if crate::bytes::trim_of(line_text(s, c)) == closer {
        c
    } else {
        fence_close_at(s, next_line_start(s, c), closer)
    }
}

#[via_fn]
proof fn fence_close_at_dec(s: Seq<u8>, c: int, closer: Seq<u8>) {
    if 0 <= c < s.len() {
        lemma_line_shape(s, c);
    }
}

pub proof fn lemma_fence_close_bounds(s: Seq<u8>, c: int, closer: Seq<u8>)
    requires
        0 <= c <= s.len(),
    ensures
        c <= fence_close_at(s, c, closer) <= s.len(),
    decreases s.len() - c,
{
    if c < s.len() && crate::bytes::trim_of(line_text(s, c)) != closer {
        lemma_line_shape(s, c);
        lemma_fence_close_bounds(s, next_line_start(s, c), closer);
    }
}

/// Content bytes of a fence at cursor `c` that never closes: everything
/// from the content start to the text end of the input's last line.
pub open spec fn fence_eof_content(s: Seq<u8>, c: int) -> Seq<u8> {
    if next_line_start(s, c) < s.len() {
        s.subrange(fence_content_start(s, c), last_line_end(s, next_line_start(s, c)))
    } else {
        Seq::<u8>::empty()
    }
}

/// Text end of the input's final line at or after `c`.
pub open spec fn last_line_end(s: Seq<u8>, c: int) -> int
    decreases s.len() - c,
    when 0 <= c < s.len()
    via last_line_end_dec
{
    let nxt = next_line_start(s, c);
    if nxt >= s.len() {
        line_text_end(s, c)
    } else {
        last_line_end(s, nxt)
    }
}

#[via_fn]
proof fn last_line_end_dec(s: Seq<u8>, c: int) {
    lemma_line_shape(s, c);
}

/// Start of a fence's content: the byte after the opener line's terminator
/// (clamped to the input length). A newline directly after the opener's
/// text is skipped; content then runs to the start of the closing line.
pub open spec fn fence_content_start(s: Seq<u8>, c: int) -> int {
    if line_text_end(s, c) + 1 <= s.len() {
        line_text_end(s, c) + 1
    } else {
        s.len() as int
    }
}

/// Whether the line at cursor `c` ends a paragraph: end of input, a blank
/// line, or a line whose trimmed text opens another block (`#`, `::`,
/// ` ``` ` or exactly `---`).
pub open spec fn para_break_at(s: Seq<u8>, c: int) -> bool {
    c >= s.len() || crate::bytes::seq_blank(line_text(s, c)) || {
        let t = crate::bytes::trim_of(line_text(s, c));
        t.len() > 0 && (t[0] == 35 || t[0] == 58 || (t[0] == 96 && kw_backticks().len() <= t.len()
            && matches_at(t, 0, kw_backticks())) || (t[0] == 45 && t == kw_dashes()))
    }
}

/// End of the paragraph that starts at cursor `c`: the text end of the
/// last line of the maximal run of paragraph lines.
pub open spec fn para_end(s: Seq<u8>, c: int) -> int
    decreases s.len() - c,
    when 0 <= c < s.len()
    via para_end_dec
{
    let nxt = next_line_start(s, c);
    if para_break_at(s, nxt) {
        line_text_end(s, c)
    } else {
        para_end(s, nxt)
    }
}

#[via_fn]
proof fn para_end_dec(s: Seq<u8>, c: int) {
    lemma_line_shape(s, c);
}

/// Cursor after the paragraph that starts at cursor `c`.
pub open spec fn para_stop(s: Seq<u8>, c: int) -> int
    decreases s.len() - c,
    when 0 <= c < s.len()
    via para_stop_dec
{
    let nxt = next_line_start(s, c);
    if para_break_at(s, nxt) {
        nxt
    } else {
        para_stop(s, nxt)
    }
}

#[via_fn]
proof fn para_stop_dec(s: Seq<u8>, c: int) {
    lemma_line_shape(s, c);
}

/// The paragraph ranges of a `::callout`/`::quote` body starting at
/// cursor `c` with the pending run `pending`: maximal non-blank runs of
/// lines, each range from its first line's start to its last line's text
/// end, up to a line whose trimmed text is `::`. A run still open at end
/// of input is dropped.
pub open spec fn body_paras(s: Seq<u8>, c: int, pending: Option<(int, int)>) -> Seq<(int, int)>
    decreases s.len() - c,
    when 0 <= c <= s.len()
    via body_paras_dec
{
    if c >= s.len() {
        Seq::empty()
    } else if crate::bytes::trim_of(line_text(s, c)) == kw_colons() {
        match pending {
            Some(pr) => seq![pr],
            None => seq![],
        }
    } else if crate::bytes::seq_blank(line_text(s, c)) {
        (match pending {
            Some(pr) => seq![pr],
            None => seq![],
        }) + body_paras(s, next_line_start(s, c), None)
    } else {
        let pr = match pending {
            Some(pr0) => (pr0.0, line_text_end(s, c)),
            None => (c, line_text_end(s, c)),
        };
        body_paras(s, next_line_start(s, c), Some(pr))
    }
}

#[via_fn]
proof fn body_paras_dec(s: Seq<u8>, c: int, pending: Option<(int, int)>) {
    if 0 <= c < s.len() {
        lemma_line_shape(s, c);
    }
}

/// `blocks` is exactly one paragraph per range of `prs`, each with that
/// span and its content parsed from the range's text.
pub open spec fn paras_match(blocks: Seq<Block>, s: Seq<u8>, prs: Seq<(int, int)>) -> bool {
    &&& blocks.len() == prs.len()
    &&& forall|k: int|
        0 <= k < blocks.len() ==> ((#[trigger] blocks[k]) matches Block::Paragraph(p) && {
            &&& p.span.start as int == prs[k].0
            &&& p.span.end as int == prs[k].1
            &&& crate::inline::inline_run_matches(p.content@, s, prs[k].0, prs[k].1)
        })
}

/// The entries of a metadata block whose first content line is at cursor
/// `c`: every line holding a `:` contributes its trimmed key bytes and the
/// trimmed value range (within that line's text); other lines are skipped;
/// a line whose trimmed text is `---`, or the end of input, closes.
pub open spec fn meta_entries(s: Seq<u8>, c: int) -> Seq<(Seq<u8>, Seq<u8>, int, int)>
    decreases s.len() - c,
    when 0 <= c <= s.len()
    via meta_entries_dec
{
    if c >= s.len() {
        Seq::empty()
    } else if crate::bytes::trim_of(line_text(s, c)) == kw_dashes() {
        Seq::empty()
    } else {
        let t = line_text(s, c);
        let cp = find_byte_spec(t, 0, t.len() as int, 58);
        let here: Seq<(Seq<u8>, Seq<u8>, int, int)> = if cp < t.len() {
            seq![
                (
                    trim_range(t, 0, cp),
                    t,
                    crate::bytes::trim_lo(t, cp + 1, t.len() as int),
                    crate::bytes::trim_hi(t, cp + 1, t.len() as int),
                ),
            ]
        } else {
            seq![]
        };
        here + meta_entries(s, next_line_start(s, c))
    }
}

#[via_fn]
proof fn meta_entries_dec(s: Seq<u8>, c: int) {
    if 0 <= c < s.len() {
        lemma_line_shape(s, c);
    }
}

/// `entries` agrees with the model: the same length, each key byte-equal,
/// each value shaped by the typing rules over its line's value range.
pub open spec fn entries_match(
    entries: Seq<(Vec<u8>, AttrValue)>,
    model: Seq<(Seq<u8>, Seq<u8>, int, int)>,
) -> bool {
    &&& entries.len() == model.len()
    &&& forall|k: int|
        0 <= k < entries.len() ==> ((#[trigger] entries[k]).0@ == model[k].0 && attr_shape(
            model[k].1,
            model[k].2,
            model[k].3,
            entries[k].1,
        ))
}

/// The list kind named by the attribute tokens of `t[q..]`, starting from
/// `cur`: `ordered` and `unordered` tokens each override the current kind.
pub open spec fn list_kind_from(t: Seq<u8>, q: int, cur: ListKind) -> ListKind
    decreases t.len() - q,
    when 0 <= q <= t.len()
    via list_kind_from_dec
{
    let a = crate::bytes::scan_ws(t, q, t.len() as int);
    if a >= t.len() {
        cur
    } else {
        let e = crate::bytes::scan_to_ws(t, a, t.len() as int);
        let seg = t.subrange(a, e);
        let nxt: ListKind = if seg == kw_ordered() {
            ListKind::Ordered
        } else if seg == kw_unordered() {
            ListKind::Unordered
        } else {
            cur
        };
        list_kind_from(t, e, nxt)
    }
}

#[via_fn]
proof fn list_kind_from_dec(t: Seq<u8>, q: int, cur: ListKind) {
    crate::bytes::lemma_scan_ws_bounds(t, q, t.len() as int);
    let a = crate::bytes::scan_ws(t, q, t.len() as int);
    if a < t.len() {
        crate::bytes::lemma_scan_to_ws_bounds(t, a, t.len() as int);
    }
}

/// The start number named by the `start=` attribute tokens of `t[q..]`: a
/// later token overrides an earlier one, and an unreadable number clears
/// the value.
pub open spec fn list_start_from(t: Seq<u8>, q: int, cur: Option<int>) -> Option<int>
    decreases t.len() - q,
    when 0 <= q <= t.len()
    via list_start_from_dec
{
    let a = crate::bytes::scan_ws(t, q, t.len() as int);
    if a >= t.len() {
        cur
    } else {
        let e = crate::bytes::scan_to_ws(t, a, t.len() as int);
        let nxt: Option<int> = if a + kw_start_eq().len() <= e && matches_at(t, a, kw_start_eq()) {
            let vs = a + kw_start_eq().len();
            if crate::bytes::all_digits(t, vs, e) && crate::bytes::digits_val(t, vs, e)
                <= u64::MAX {
                Some(crate::bytes::digits_val(t, vs, e))
            } else {
                None
            }
        } else {
            cur
        };
        list_start_from(t, e, nxt)
    }
}

#[via_fn]
proof fn list_start_from_dec(t: Seq<u8>, q: int, cur: Option<int>) {
    crate::bytes::lemma_scan_ws_bounds(t, q, t.len() as int);
    let a = crate::bytes::scan_ws(t, q, t.len() as int);
    if a < t.len() {
        crate::bytes::lemma_scan_to_ws_bounds(t, a, t.len() as int);
    }
}

/// The item text ranges of a `::list` body at cursor `c` with the pending
/// item `pending`: a `- ` line closes the pending item and opens one after
/// its dash marker; a `| ` line extends the pending item; blank lines are
/// allowed; `::` closes the list; any other line terminates it. An item
/// still open at end of input is dropped.
pub open spec fn list_items_from(s: Seq<u8>, c: int, pending: Option<(int, int)>) -> Seq<
    (int, int),
>
    decreases s.len() - c,
    when 0 <= c <= s.len()
    via list_items_from_dec
{
    if c >= s.len() {
        Seq::empty()
    } else {
        let raw = line_text(s, c);
        let lt = crate::bytes::trim_of(raw);
        if lt == kw_colons() {
            match pending {
                Some(pr) => seq![pr],
                None => seq![],
            }
        } else if kw_dash_item().len() <= lt.len() && matches_at(lt, 0, kw_dash_item()) {
            let a = c + crate::bytes::find_word(raw, 0, kw_dash_item()) + kw_dash_item().len();
            (match pending {
                Some(pr) => seq![pr],
                None => seq![],
            }) + list_items_from(s, next_line_start(s, c), Some((a, line_text_end(s, c))))
        } else if kw_pipe_cont().len() <= lt.len() && matches_at(lt, 0, kw_pipe_cont()) {
            let pending2: Option<(int, int)> = match pending {
                Some(pr) => Some((pr.0, line_text_end(s, c))),
                None => None,
            };
            list_items_from(s, next_line_start(s, c), pending2)
        } else if crate::bytes::seq_blank(raw) {
            list_items_from(s, next_line_start(s, c), pending)
        } else {
            match pending {
                Some(pr) => seq![pr],
                None => seq![],
            }
        }
    }
}

#[via_fn]
proof fn list_items_from_dec(s: Seq<u8>, c: int, pending: Option<(int, int)>) {
    if 0 <= c < s.len() {
        lemma_line_shape(s, c);
    }
}

/// Whether a line (trimmed) starts another top-level block and so breaks
/// an unclosed list: a fence, a code fence, a heading, a directive line, a
/// thematic break or a metadata rule.
pub open spec fn list_breaker(t: Seq<u8>) -> bool {
    ||| kw_colons().len() <= t.len() && matches_at(t, 0, kw_colons())
    ||| kw_backticks().len() <= t.len() && matches_at(t, 0, kw_backticks())
    ||| (t.len() > 0 && t[0] == 35)
    ||| kw_at_profile().len() <= t.len() && matches_at(t, 0, kw_at_profile())
    ||| kw_at_modules().len() <= t.len() && matches_at(t, 0, kw_at_modules())
    ||| t == kw_dashes()
    ||| kw_meta_rule().len() <= t.len() && matches_at(t, 0, kw_meta_rule())
}

/// How the `::list` body starting at cursor `c` terminates: 0 for a `::`
/// closer or end of input, 1 for a block-starter line, 2 for any other
/// stray line. Cases 1 and 2 record an error.
pub open spec fn list_term(s: Seq<u8>, c: int) -> int
    decreases s.len() - c,
    when 0 <= c <= s.len()
    via list_term_dec
{
    if c >= s.len() {
        0
    } else {
        let raw = line_text(s, c);
        let lt = crate::bytes::trim_of(raw);
        if lt == kw_colons() {
            0
        } else if (kw_dash_item().len() <= lt.len() && matches_at(lt, 0, kw_dash_item())) || (
        kw_pipe_cont().len() <= lt.len() && matches_at(lt, 0, kw_pipe_cont()))
            || crate::bytes::seq_blank(raw) {
            list_term(s, next_line_start(s, c))
        } else if list_breaker(lt) {
            1
        } else {
            2
        }
    }
}

#[via_fn]
proof fn list_term_dec(s: Seq<u8>, c: int) {
    if 0 <= c < s.len() {
        lemma_line_shape(s, c);
    }
}

/// `items` is exactly one item per range of `model`, each with that span
/// and a single paragraph parsed from the range's text.
pub open spec fn items_match(items: Seq<ListItem>, s: Seq<u8>, model: Seq<(int, int)>) -> bool {
    &&& items.len() == model.len()
    &&& forall|k: int|
        0 <= k < items.len() ==> {
            let it = #[trigger] items[k];
            &&& it.span.start as int == model[k].0
            &&& it.span.end as int == model[k].1
            &&& it.blocks@.len() == 1
            &&& (it.blocks@[0] matches Block::Paragraph(p) && {
                &&& p.span == it.span
                &&& crate::inline::inline_run_matches(p.content@, s, model[k].0, model[k].1)
            })
        }
}

/// The rows of a `::table` body at cursor `c`: a `|`-led line containing
/// `---` is a separator, any other `|`-led line is a row whose header flag
/// is set exactly when it is the first row and no separator came before
/// it; `::`, end of input, or any other line ends the table.
pub open spec fn table_rows_from(s: Seq<u8>, c: int, seen_sep: bool, first: bool) -> Seq<
    (int, bool),
>
    decreases s.len() - c,
    when 0 <= c <= s.len()
    via table_rows_from_dec
{
    if c >= s.len() {
        Seq::empty()
    } else {
        let lt = crate::bytes::trim_of(line_text(s, c));
        if lt == kw_colons() {
            Seq::empty()
        } else if lt.len() > 0 && lt[0] == 124 && (exists|q: int|
            0 <= q && q + kw_dashes().len() <= lt.len() && matches_at(lt, q, kw_dashes())) {
            table_rows_from(s, next_line_start(s, c), true, first)
        } else if lt.len() > 0 && lt[0] == 124 {
            seq![(c, !seen_sep && first)] + table_rows_from(s, next_line_start(s, c), seen_sep, false)
        } else {
            Seq::empty()
        }
    }
}

#[via_fn]
proof fn table_rows_from_dec(s: Seq<u8>, c: int, seen_sep: bool, first: bool) {
    if 0 <= c < s.len() {
        lemma_line_shape(s, c);
    }
}

/// The cell segments of one table row line `t` (trimmed): the text is
/// split on `|`, the part before the first `|` and parts that trim to
/// nothing are dropped, and each kept segment spans `[a, p)`.
pub open spec fn row_cells_from(t: Seq<u8>, i: int, first: bool) -> Seq<(int, int)>
    decreases t.len() - i,
    when 0 <= i <= t.len()
    via row_cells_from_dec
{
    let p = find_byte_spec(t, i, t.len() as int, 124);
    let here: Seq<(int, int)> = if first || crate::bytes::trim_lo(t, i, p)
        >= crate::bytes::trim_hi(t, i, p) {
        seq![]
    } else {
        seq![(i, p)]
    };
    if p < t.len() {
        here + row_cells_from(t, p + 1, false)
    } else {
        here
    }
}

#[via_fn]
proof fn row_cells_from_dec(t: Seq<u8>, i: int, first: bool) {
    crate::bytes::lemma_find_byte_bounds(t, i, t.len() as int, 124);
}

/// `cells` is exactly one cell per kept segment: the cell's span covers
/// the segment (padding included) at the row's base offset, its content
/// parsed from the segment's trimmed text at the segment's start.
pub open spec fn cells_match(
    cells: Seq<TableCell>,
    t: Seq<u8>,
    base: int,
    model: Seq<(int, int)>,
) -> bool {
    &&& cells.len() == model.len()
    &&& forall|k: int|
        0 <= k < cells.len() ==> {
            let a = model[k].0;
            let p = model[k].1;
            let cell = #[trigger] cells[k];
            &&& cell.span.start as int == base + a
            &&& cell.span.end as int == base + p
            &&& crate::inline::inline_run_matches_text(
                cell.content@,
                t.subrange(
                    crate::bytes::trim_lo(t, a, p),
                    crate::bytes::trim_hi(t, a, p),
                ),
                base + a,
            )
        }
}

/// How the `::table` body starting at cursor `c` terminates: 0 for a `::`
/// closer or end of input, 1 for a non-table line (which records an
/// error).
pub open spec fn table_term(s: Seq<u8>, c: int) -> int
    decreases s.len() - c,
    when 0 <= c <= s.len()
    via table_term_dec
{
    if c >= s.len() {
        0
    } else {
        let lt = crate::bytes::trim_of(line_text(s, c));
        if lt == kw_colons() {
            0
        } else if lt.len() > 0 && lt[0] == 124 {
            table_term(s, next_line_start(s, c))
        } else {
            1
        }
    }
}

#[via_fn]
proof fn table_term_dec(s: Seq<u8>, c: int) {
    if 0 <= c < s.len() {
        lemma_line_shape(s, c);
    }
}

/// `rows` is exactly one row per entry of `model`: the row's span is its
/// line, its header flag as modelled, its cells split from the line's
/// trimmed text.
pub open spec fn rows_match(rows: Seq<TableRow>, s: Seq<u8>, model: Seq<(int, bool)>) -> bool {
    &&& rows.len() == model.len()
    &&& forall|k: int|
        0 <= k < rows.len() ==> {
            let row = #[trigger] rows[k];
            let t = crate::bytes::trim_of(line_text(s, model[k].0));
            &&& row.span.start as int == model[k].0
            &&& row.span.end as int == line_text_end(s, model[k].0)
            &&& row.header == model[k].1
            &&& cells_match(row.cells@, t, model[k].0, row_cells_from(t, 0, true))
        }
}

/// The footnote definitions of a `::footnotes` body at cursor `c`: every
/// line whose trimmed text starts with `[^` and holds `]:` after it
/// contributes (its cursor, the separator's position within the trimmed
/// text); other lines are skipped; `::` or end of input closes.
pub open spec fn foot_defs_from(s: Seq<u8>, c: int) -> Seq<(int, int)>
    decreases s.len() - c,
    when 0 <= c <= s.len()
    via foot_defs_from_dec
{
    if c >= s.len() {
        Seq::empty()
    } else {
        let lt = crate::bytes::trim_of(line_text(s, c));
        if lt == kw_colons() {
            Seq::empty()
        } else {
            let here: Seq<(int, int)> = if kw_footref_open().len() <= lt.len() && matches_at(
                lt,
                0,
                kw_footref_open(),
            ) && crate::bytes::find_word(lt, 2, kw_footdef_sep()) < lt.len() {
                seq![(c, crate::bytes::find_word(lt, 2, kw_footdef_sep()))]
            } else {
                seq![]
            };
            here + foot_defs_from(s, next_line_start(s, c))
        }
    }
}

#[via_fn]
proof fn foot_defs_from_dec(s: Seq<u8>, c: int) {
    if 0 <= c < s.len() {
        lemma_line_shape(s, c);
    }
}

/// `defs` is exactly one definition per entry of `model`: the label is the
/// trimmed text between `[^` and `]:`, the body a single paragraph parsed
/// from the trimmed text after `]:`, the span the definition's line.
pub open spec fn foot_defs_match(defs: Seq<FootnoteDef>, s: Seq<u8>, model: Seq<(int, int)>) -> bool {
    &&& defs.len() == model.len()
    &&& forall|k: int|
        0 <= k < defs.len() ==> {
            let c = model[k].0;
            let be = model[k].1;
            let lt = crate::bytes::trim_of(line_text(s, c));
            let d = #[trigger] defs[k];
            &&& d.label@ == lt.subrange(2, be)
            &&& d.span.start as int == c
            &&& d.span.end as int == line_text_end(s, c)
            &&& d.blocks@.len() == 1
            &&& (d.blocks@[0] matches Block::Paragraph(p) && {
                &&& p.span == d.span
                &&& crate::inline::inline_run_matches_text(
                    p.content@,
                    lt.subrange(
                        crate::bytes::trim_lo(lt, be + 2, lt.len() as int),
                        crate::bytes::trim_hi(lt, be + 2, lt.len() as int),
                    ),
                    c,
                )
            })
        }
}

/// Cursor after a `::list` body that starts at cursor `c`: item,
/// continuation and blank lines are consumed, a `::` line is consumed and
/// closes, any other line is left in place, and end of input closes.
pub open spec fn list_stop_from(s: Seq<u8>, c: int) -> int
    decreases s.len() - c,
    when 0 <= c <= s.len()
    via list_stop_from_dec
{
    if c >= s.len() {
        s.len() as int
    } else {
        let raw = line_text(s, c);
        let lt = crate::bytes::trim_of(raw);
        if lt == kw_colons() {
            next_line_start(s, c)
        } else if (kw_dash_item().len() <= lt.len() && matches_at(lt, 0, kw_dash_item())) || (
        kw_pipe_cont().len() <= lt.len() && matches_at(lt, 0, kw_pipe_cont()))
            || crate::bytes::seq_blank(raw) {
            list_stop_from(s, next_line_start(s, c))
        } else {
            c
        }
    }
}

#[via_fn]
proof fn list_stop_from_dec(s: Seq<u8>, c: int) {
    if 0 <= c < s.len() {
        lemma_line_shape(s, c);
    }
}

/// Cursor after a `::table` body that starts at cursor `c`: `|`-led lines
/// are consumed, a `::` line is consumed and closes, any other line is
/// left in place, and end of input closes.
pub open spec fn table_stop_from(s: Seq<u8>, c: int) -> int
    decreases s.len() - c,
    when 0 <= c <= s.len()
    via table_stop_from_dec
{
    if c >= s.len() {
        s.len() as int
    } else {
        let lt = crate::bytes::trim_of(line_text(s, c));
        if lt == kw_colons() {
            next_line_start(s, c)
        } else if lt.len() > 0 && lt[0] == 124 {
            table_stop_from(s, next_line_start(s, c))
        } else {
            c
        }
    }
}

#[via_fn]
proof fn table_stop_from_dec(s: Seq<u8>, c: int) {
    if 0 <= c < s.len() {
        lemma_line_shape(s, c);
    }
}

/// The directive name on the fence line `t` (trimmed): the first token
/// after the two colons.
pub open spec fn directive_name(t: Seq<u8>) -> Seq<u8> {
    let ns = crate::bytes::scan_ws(t, 2, t.len() as int);
    let ne = crate::bytes::scan_to_ws(t, ns, t.len() as int);
    t.subrange(ns, ne)
}

/// What the heading parser produces for the line at cursor `c`.
pub open spec fn heading_match(s: Seq<u8>, c: int, b: Block) -> bool {
    let te = line_text_end(s, c);
    let t = line_text(s, c);
    let lvl = crate::bytes::scan_run(t, 0, t.len() as int, 35);
    let cs: int = if lvl < t.len() && t[lvl] == 32 {
        lvl + 1
    } else {
        lvl
    };
    if 1 <= lvl <= 6 && (lvl == t.len() || t[lvl] == 32) {
        b matches Block::Heading(h) && {
            &&& h.level == lvl
            &&& h.span.start as int == c
            &&& h.span.end as int == te
            &&& crate::inline::inline_run_matches(h.content@, s, c + cs, te)
        }
    } else {
        b matches Block::Paragraph(p) && {
            &&& p.span.start as int == c
            &&& p.span.end as int == te
            &&& crate::inline::inline_run_matches(p.content@, s, c, te)
        }
    }
}

/// What the paragraph parser produces for the run at cursor `c`.
pub open spec fn paragraph_match(s: Seq<u8>, c: int, b: Block) -> bool {
    b matches Block::Paragraph(p) && {
        &&& p.span.start as int == c
        &&& p.span.end as int == para_end(s, c)
        &&& crate::inline::inline_run_matches(p.content@, s, c, para_end(s, c))
    }
}

/// What the code-block parser produces for the fence at cursor `c`.
pub open spec fn code_match(s: Seq<u8>, c: int, b: Block) -> bool {
    let t = crate::bytes::trim_of(line_text(s, c));
    let cl = fence_close_at(s, next_line_start(s, c), kw_backticks());
    b matches Block::CodeBlock(cb) && {
        &&& cb.lang@ == (if kw_backticks().len() <= t.len() && matches_at(t, 0, kw_backticks()) {
            trim_range(t, kw_backticks().len() as int, t.len() as int)
        } else {
            Seq::<u8>::empty()
        })
        &&& cb.content@ == (if cl < s.len() {
            s.subrange(fence_content_start(s, c), cl)
        } else {
            fence_eof_content(s, c)
        })
    }
}

/// What the list parser produces for the fence at cursor `c`.
pub open spec fn list_match(s: Seq<u8>, c: int, b: Block) -> bool {
    let t = crate::bytes::trim_of(line_text(s, c));
    let named = kw_colons().len() + kw_list().len() <= t.len() && matches_at(t, 0, kw_colons())
        && matches_at(t, kw_colons().len() as int, kw_list());
    let alo: int = if named {
        kw_colons().len() + kw_list().len() as int
    } else {
        t.len() as int
    };
    b matches Block::List(l) && {
        &&& l.kind == list_kind_from(t, alo, ListKind::Unordered)
        &&& (match l.start {
            Some(v) => list_start_from(t, alo, None) == Some(v as int),
            None => list_start_from(t, alo, None) is None,
        })
        &&& items_match(l.items@, s, list_items_from(s, next_line_start(s, c), None))
    }
}

/// What the callout parser produces for the fence at cursor `c`.
pub open spec fn callout_match(s: Seq<u8>, c: int, b: Block) -> bool {
    let t = crate::bytes::trim_of(line_text(s, c));
    let named = kw_colons().len() + kw_callout().len() <= t.len() && matches_at(t, 0, kw_colons())
        && matches_at(t, kw_colons().len() as int, kw_callout());
    let alo: int = if named {
        kw_colons().len() + kw_callout().len() as int
    } else {
        t.len() as int
    };
    b matches Block::Callout(cb) && {
        &&& cb.kind@ == (match attr_scan(t, alo, t.len() as int, kw_type_name(), None) {
            Some(v) => v,
            None => kw_note(),
        })
        &&& opt_bytes(cb.title) == attr_scan(t, alo, t.len() as int, kw_title(), None)
        &&& cb.span.start as int == c
        &&& paras_match(cb.blocks@, s, body_paras(s, next_line_start(s, c), None))
    }
}

/// What the quote parser produces for the fence at cursor `c`.
pub open spec fn quote_match(s: Seq<u8>, c: int, b: Block) -> bool {
    b matches Block::Quote(q) && {
        &&& q.span.start as int == c
        &&& paras_match(q.blocks@, s, body_paras(s, next_line_start(s, c), None))
    }
}

/// What the figure parser produces for the fence at cursor `c`.
pub open spec fn figure_match(s: Seq<u8>, c: int, b: Block) -> bool {
    let t = crate::bytes::trim_of(line_text(s, c));
    let named = kw_colons().len() + kw_figure().len() <= t.len() && matches_at(t, 0, kw_colons())
        && matches_at(t, kw_colons().len() as int, kw_figure());
    let alo: int = if named {
        kw_colons().len() + kw_figure().len() as int
    } else {
        t.len() as int
    };
    b matches Block::Figure(f) && {
        &&& f.src@ == (match attr_scan(t, alo, t.len() as int, kw_src(), None) {
            Some(v) => v,
            None => Seq::<u8>::empty(),
        })
        &&& f.alt@ == (match attr_scan(t, alo, t.len() as int, kw_alt(), None) {
            Some(v) => v,
            None => Seq::<u8>::empty(),
        })
        &&& opt_bytes(f.caption) == attr_scan(t, alo, t.len() as int, kw_caption(), None)
    }
}

/// What the table parser produces for the fence at cursor `c`.
pub open spec fn table_match(s: Seq<u8>, c: int, b: Block) -> bool {
    b matches Block::Table(tb) && rows_match(
        tb.rows@,
        s,
        table_rows_from(s, next_line_start(s, c), false, true),
    )
}

/// What the footnotes parser produces for the fence at cursor `c`.
pub open spec fn footnotes_match(s: Seq<u8>, c: int, b: Block) -> bool {
    b matches Block::Footnotes(fb) && foot_defs_match(
        fb.defs@,
        s,
        foot_defs_from(s, next_line_start(s, c)),
    )
}

/// Whether a `::math` opener line (trimmed) selects display mode: it
/// contains `block` or `display`.
pub open spec fn math_display_of(t: Seq<u8>) -> bool {
    (exists|q: int| 0 <= q && q + kw_block().len() <= t.len() && matches_at(t, q, kw_block()))
        || (exists|q: int|
        0 <= q && q + kw_display().len() <= t.len() && matches_at(t, q, kw_display()))
}

/// What the math parser produces for the fence at cursor `c`.
pub open spec fn math_match(s: Seq<u8>, c: int, b: Block) -> bool {
    let t = crate::bytes::trim_of(line_text(s, c));
    let cl = fence_close_at(s, next_line_start(s, c), kw_colons());
    b matches Block::Math(mb) && {
        &&& mb.display == math_display_of(t)
        &&& mb.content@ == (if cl < s.len() {
            s.subrange(fence_content_start(s, c), cl)
        } else {
            fence_eof_content(s, c)
        })
    }
}

/// What the raw-fence reader produces for the fence at cursor `c`.
pub open spec fn raw_match(s: Seq<u8>, c: int, b: Block) -> bool {
    let cl = fence_close_at(s, next_line_start(s, c), kw_colons());
    b matches Block::Raw(rb) && rb.content@ == (if cl < s.len() {
        s.subrange(fence_content_start(s, c), cl)
    } else {
        fence_eof_content(s, c)
    })
}

/// What the HTML parser produces for the fence at cursor `c`: pass-through
/// when the module is on, a raw block otherwise.
pub open spec fn html_match(s: Seq<u8>, c: int, html_on: bool, b: Block) -> bool {
    let cl = fence_close_at(s, next_line_start(s, c), kw_colons());
    if html_on {
        b matches Block::Html(hb) && hb.content@ == (if cl < s.len() {
            s.subrange(fence_content_start(s, c), cl)
        } else {
            fence_eof_content(s, c)
        })
    } else {
        b matches Block::Raw(rb) && rb.content@ == (if cl < s.len() {
            s.subrange(fence_content_start(s, c), cl)
        } else {
            fence_eof_content(s, c)
        })
    }
}

/// What a `::name` fence at cursor `c` produces, by directive name.
pub open spec fn fenced_match(s: Seq<u8>, c: int, html_on: bool, b: Block) -> bool {
    let name = directive_name(crate::bytes::trim_of(line_text(s, c)));
    if name == kw_list() {
        list_match(s, c, b)
    } else if name == kw_callout() {
        callout_match(s, c, b)
    } else if name == kw_quote() {
        quote_match(s, c, b)
    } else if name == kw_figure() {
        figure_match(s, c, b)
    } else if name == kw_table() {
        table_match(s, c, b)
    } else if name == kw_footnotes() {
        footnotes_match(s, c, b)
    } else if name == kw_math() {
        math_match(s, c, b)
    } else if name == kw_html() {
        html_match(s, c, html_on, b)
    } else {
        raw_match(s, c, b)
    }
}

/// Cursor after a `::name` fence that starts at cursor `c`.
pub open spec fn fenced_stop(s: Seq<u8>, c: int) -> int {
    let name = directive_name(crate::bytes::trim_of(line_text(s, c)));
    let nxt = next_line_start(s, c);
    if name == kw_list() {
        list_stop_from(s, nxt)
    } else if name == kw_figure() {
        if nxt < s.len() && crate::bytes::trim_of(line_text(s, nxt)) == kw_colons() {
            next_line_start(s, nxt)
        } else {
            nxt
        }
    } else if name == kw_table() {
        table_stop_from(s, nxt)
    } else {
        let cl = fence_close_at(s, nxt, kw_colons());
        if cl < s.len() {
            next_line_start(s, cl)
        } else {
            s.len() as int
        }
    }
}

/// Whether the trimmed line `t` opens a fenced directive.
pub open spec fn is_fence_line(t: Seq<u8>) -> bool {
    t.len() > 0 && t[0] == 58 && kw_colons().len() <= t.len() && matches_at(t, 0, kw_colons())
}

/// What the block at cursor `c` is: the dispatch of the block parser,
/// summed from each handler's exact postcondition.
pub open spec fn block_match_at(s: Seq<u8>, c: int, html_on: bool, b: Block) -> bool {
    let t = crate::bytes::trim_of(line_text(s, c));
    if t.len() > 0 && t[0] == 35 {
        heading_match(s, c, b)
    } else if t.len() > 0 && t[0] == 96 && kw_backticks().len() <= t.len() && matches_at(
        t,
        0,
        kw_backticks(),
    ) {
        code_match(s, c, b)
    } else if t.len() > 0 && t[0] == 45 && t == kw_dashes() {
        b matches Block::ThematicBreak(sp) && sp.start as int == c && sp.end as int
            == line_text_end(s, c)
    } else if is_fence_line(t) {
        fenced_match(s, c, html_on, b)
    } else {
        paragraph_match(s, c, b)
    }
}

/// Cursor after the block that starts at cursor `c`.
pub open spec fn block_stop_at(s: Seq<u8>, c: int) -> int {
    let t = crate::bytes::trim_of(line_text(s, c));
    if t.len() > 0 && t[0] == 35 {
        next_line_start(s, c)
    } else if t.len() > 0 && t[0] == 96 && kw_backticks().len() <= t.len() && matches_at(
        t,
        0,
        kw_backticks(),
    ) {
        let cl = fence_close_at(s, next_line_start(s, c), kw_backticks());
        if cl < s.len() {
            next_line_start(s, cl)
        } else {
            s.len() as int
        }
    } else if t.len() > 0 && t[0] == 45 && t == kw_dashes() {
        next_line_start(s, c)
    } else if is_fence_line(t) {
        fenced_stop(s, c)
    } else {
        para_stop(s, c)
    }
}

pub proof fn lemma_para_stop_bounds(s: Seq<u8>, c: int)
    requires
        0 <= c < s.len(),
    ensures
        c < para_stop(s, c) <= s.len(),
    decreases s.len() - c,
{
    lemma_line_shape(s, c);
    let nxt = next_line_start(s, c);
    if !para_break_at(s, nxt) {
        lemma_para_stop_bounds(s, nxt);
    }
}

pub proof fn lemma_list_stop_bounds(s: Seq<u8>, c: int)
    requires
        0 <= c <= s.len(),
    ensures
        c <= list_stop_from(s, c) <= s.len(),
    decreases s.len() - c,
{
    if c < s.len() {
        lemma_line_shape(s, c);
        let raw = line_text(s, c);
        let lt = crate::bytes::trim_of(raw);
        if lt != kw_colons() && ((kw_dash_item().len() <= lt.len() && matches_at(
            lt,
            0,
            kw_dash_item(),
        )) || (kw_pipe_cont().len() <= lt.len() && matches_at(lt, 0, kw_pipe_cont()))
            || crate::bytes::seq_blank(raw)) {
            lemma_list_stop_bounds(s, next_line_start(s, c));
        }
    }
}

pub proof fn lemma_table_stop_bounds(s: Seq<u8>, c: int)
    requires
        0 <= c <= s.len(),
    ensures
        c <= table_stop_from(s, c) <= s.len(),
    decreases s.len() - c,
{
    if c < s.len() {
        lemma_line_shape(s, c);
        let lt = crate::bytes::trim_of(line_text(s, c));
        if lt != kw_colons() && lt.len() > 0 && lt[0] == 124 {
            lemma_table_stop_bounds(s, next_line_start(s, c));
        }
    }
}

/// A block always consumes at least one line and stays within the input.
pub proof fn lemma_block_stop_bounds(s: Seq<u8>, c: int)
    requires
        0 <= c < s.len(),
    ensures
        c < block_stop_at(s, c) <= s.len(),
{
    lemma_line_shape(s, c);
    let t = crate::bytes::trim_of(line_text(s, c));
    let nxt = next_line_start(s, c);
    if t.len() > 0 && t[0] == 35 {
    } else if t.len() > 0 && t[0] == 96 && kw_backticks().len() <= t.len() && matches_at(
        t,
        0,
        kw_backticks(),
    ) {
        lemma_fence_close_bounds(s, nxt, kw_backticks());
        let cl = fence_close_at(s, nxt, kw_backticks());
        if cl < s.len() {
            lemma_line_shape(s, cl);
        }
    } else if t.len() > 0 && t[0] == 45 && t == kw_dashes() {
    } else if is_fence_line(t) {
        let name = directive_name(t);
        if name == kw_list() {
            lemma_list_stop_bounds(s, nxt);
        } else if name == kw_figure() {
            if nxt < s.len() {
                lemma_line_shape(s, nxt);
            }
        } else if name == kw_table() {
            lemma_table_stop_bounds(s, nxt);
        } else {
            lemma_fence_close_bounds(s, nxt, kw_colons());
            let cl = fence_close_at(s, nxt, kw_colons());
            if cl < s.len() {
                lemma_line_shape(s, cl);
            }
        }
    } else {
        lemma_para_stop_bounds(s, c);
    }
}

/// The start cursors of the document's blocks from cursor `c` on: blank
/// lines are skipped before each block.
pub open spec fn block_cursors(s: Seq<u8>, c: int) -> Seq<int>
    decreases s.len() - c,
    when 0 <= c <= s.len()
    via block_cursors_dec
{
    let c1 = skip_blanks(s, c);
    if c1 >= s.len() {
        Seq::empty()
    } else {
        seq![c1] + block_cursors(s, block_stop_at(s, c1))
    }
}

#[via_fn]
proof fn block_cursors_dec(s: Seq<u8>, c: int) {
    lemma_skip_blanks_bounds(s, c);
    let c1 = skip_blanks(s, c);
    if c1 < s.len() {
        lemma_block_stop_bounds(s, c1);
    }
}

/// `blocks` is exactly the document's block sequence from cursor `c` on:
/// one block per start cursor, each matching the block model at its
/// cursor.
pub open spec fn doc_blocks_match(blocks: Seq<Block>, s: Seq<u8>, c: int, html_on: bool) -> bool {
    &&& blocks.len() == block_cursors(s, c).len()
    &&& forall|k: int|
        0 <= k < blocks.len() ==> block_match_at(
            s,
            block_cursors(s, c)[k],
            html_on,
            #[trigger] blocks[k],
        )
}

/// Whether the line at cursor `c` opens a metadata block: its trimmed text
/// starts with `---` and contains `meta`.
pub open spec fn metadata_opener_at(s: Seq<u8>, c: int) -> bool {
    0 <= c < s.len() && {
        let t = crate::bytes::trim_of(line_text(s, c));
        &&& kw_dashes().len() <= t.len() && matches_at(t, 0, kw_dashes())
        &&& exists|q: int| 0 <= q && q + kw_meta().len() <= t.len() && matches_at(t, q, kw_meta())
    }
}

/// `t[from..to]` with a surrounding pair of matching quotes removed, when
/// one is present.
pub open spec fn unquote_range(t: Seq<u8>, from: int, to: int) -> Seq<u8> {
    if to - from >= 2 && ((t[from] == 34 && t[to - 1] == 34) || (t[from] == 39 && t[to - 1]
        == 39)) {
        t.subrange(from + 1, to - 1)
    } else {
        t.subrange(from, to)
    }
}

/// What `parse_attr_value` returns for the text `sq[from..to]`: `true` and
/// `false` are booleans; `[...]` is a list; an integer literal in range is
/// an `Int`; a float literal keeps its text; anything else is a string
/// with a surrounding quote pair stripped.
pub open spec fn attr_shape(sq: Seq<u8>, from: int, to: int, r: AttrValue) -> bool {
    let t = sq.subrange(from, to);
    if t == kw_true_lit() {
        r == AttrValue::Bool(true)
    } else if t == kw_false_lit() {
        r == AttrValue::Bool(false)
    } else if to - from >= 2 && sq[from] == 91 && sq[to - 1] == 93 {
        r is List
    } else if crate::bytes::is_i64_lit(sq, from, to) {
        r matches AttrValue::Int(n) && n == crate::bytes::i64_lit_val(sq, from, to)
    } else if crate::bytes::is_float_lit(sq, from, to) {
        r matches AttrValue::Float(raw) && raw@ == t
    } else {
        r matches AttrValue::Str(u) && u@ == unquote_range(sq, from, to)
    }
}

impl Parser {
    /// Parse one metadata value: the typing rules of the metadata block.
    fn parse_attr_value(&self, v: &[u8], from: usize, to: usize) -> (r: AttrValue)
        requires
            from <= to <= v@.len(),
        ensures
            attr_shape(v@, from as int, to as int, r),
        decreases to - from, 1int,
    {
        let tru = kw_true_lit_v();
        let fal = kw_false_lit_v();
        if crate::bytes::range_is(v, from, to, tru.as_slice()) {
            return AttrValue::Bool(true);
        }
        if crate::bytes::range_is(v, from, to, fal.as_slice()) {
            return AttrValue::Bool(false);
        }
        if to - from >= 2 && v[from] == 91 && v[to - 1] == 93 {
            let items = self.parse_list_items(v, from + 1, to - 1);
            return AttrValue::List(items);
        }
        match crate::bytes::parse_i64_range(v, from, to) {
            Some(n) => {
                return AttrValue::Int(n);
            },
            None => {},
        }
        if crate::bytes::is_float_range(v, from, to) {
            return AttrValue::Float(copy_range(v, from, to));
        }
        if to - from >= 2 && ((v[from] == 34 && v[to - 1] == 34) || (v[from] == 39 && v[to - 1]
            == 39)) {
            let u = copy_range(v, from + 1, to - 1);
            AttrValue::Str(u)
        } else {
            AttrValue::Str(copy_range(v, from, to))
        }
    }

    /// Split a `[...]` body on commas outside quotes and parse each
    /// non-empty trimmed element as a value.
    fn parse_list_items(&self, v: &[u8], from: usize, to: usize) -> (r: Vec<AttrValue>)
        requires
            from <= to <= v@.len(),
        decreases to - from, 2int,
    {
        let mut items: Vec<AttrValue> = Vec::new();
        let mut seg_start = from;
        let mut in_quotes = false;
        let mut i = from;
        while i < to
            invariant
                from <= seg_start <= i <= to <= v@.len(),
            decreases to - i,
        {
            let b = v[i];
            if b == 34 || b == 39 {
                in_quotes = !in_quotes;
            } else if b == 44 && !in_quotes {
                let (ilo, ihi) = trim_bounds(v, seg_start, i);
                if ilo < ihi {
                    let item = self.parse_attr_value(v, ilo, ihi);
                    items.push(item);
                }
                seg_start = i + 1;
            }
            i += 1;
        }
        let (ilo, ihi) = trim_bounds(v, seg_start, to);
        if ilo < ihi {
            let item = self.parse_attr_value(v, ilo, ihi);
            items.push(item);
        }
        items
    }

    /// Recognize an optional `--- meta` block at the cursor: each
    /// `key: value` line becomes one entry, lines without `:` are skipped,
    /// and a `---` line closes the block.
    fn parse_metadata(&self, lexer: &mut Lexer, input: &[u8]) -> (r: Option<Metadata>)
        requires
            old(lexer).wf(),
            old(lexer).inp() == input@,
        ensures
            final(lexer).wf(),
            final(lexer).inp() == input@,
            old(lexer).cursor() <= final(lexer).cursor() <= input@.len(),
            (r is Some) == metadata_opener_at(old(lexer).inp(), old(lexer).cursor()),
            match r {
                Some(m) => {
                    let s = old(lexer).inp();
                    let c1 = next_line_start(s, old(lexer).cursor());
                    let cl = fence_close_at(s, c1, kw_dashes());
                    &&& span_ordered(m.span)
                    &&& m.span.start as int == old(lexer).cursor()
                    &&& m.span.end as int <= final(lexer).cursor()
                    &&& entries_match(m.entries@, meta_entries(s, c1))
                    &&& cl < s.len() ==> {
                        &&& m.span.end as int == line_text_end(s, cl)
                        &&& final(lexer).cursor() == next_line_start(s, cl)
                    }
                    &&& cl >= s.len() ==> final(lexer).cursor() == s.len()
                },
                None => final(lexer).cursor() == old(lexer).cursor(),
            },
    {
        let ghost s = input@;
        let ghost c0 = old(lexer).cursor();
        proof {
            lexer.lemma_cursor_bounds();
        }
        let peeked = lexer.peek_line();
        let line = match peeked {
            Some(l) => l,
            None => {
                return None;
            },
        };
        let lt = line.trimmed();
        let dashes = kw_dashes_v();
        let meta_w = kw_meta_v();
        if !starts_with_at(lt.as_slice(), 0, lt.len(), dashes.as_slice()) {
            return None;
        }
        if !crate::bytes::contains_sub(lt.as_slice(), 0, lt.len(), meta_w.as_slice()) {
            return None;
        }
        let opener = take_line(lexer);
        let ghost c1 = next_line_start(s, c0);
        proof {
            lemma_line_shape(s, c0);
        }
        let ghost cl = fence_close_at(s, c1, kw_dashes());
        let mut entries: Vec<(Vec<u8>, AttrValue)> = Vec::new();
        let mut end_span = opener.span;
        let mut closed = false;
        let ghost mut done: Seq<(Seq<u8>, Seq<u8>, int, int)> = Seq::empty();
        proof {
            assert(Seq::<(Seq<u8>, Seq<u8>, int, int)>::empty() + meta_entries(s, c1)
                =~= meta_entries(s, c1));
        }
        loop
            invariant_except_break
                !closed,
                meta_entries(s, c1) == done + meta_entries(s, lexer.cursor()),
                fence_close_at(s, lexer.cursor(), kw_dashes()) == cl,
            invariant
                dashes@ == kw_dashes(),
                c1 == next_line_start(s, c0),
                0 <= c1 <= s.len(),
                cl == fence_close_at(s, c1, kw_dashes()),
                old(lexer).inp() == s,
                old(lexer).cursor() == c0,
                s == input@,
                lexer.wf(),
                lexer.inp() == s,
                c0 < lexer.cursor() <= s.len(),
                opener.span.start as int == c0,
                opener.span.start <= end_span.end,
                end_span.end as int <= lexer.cursor(),
                entries_match(entries@, done),
            ensures
                entries_match(entries@, meta_entries(s, c1)),
                closed == (cl < s.len()),
                closed ==> {
                    &&& end_span.start as int == cl
                    &&& end_span.end as int == line_text_end(s, cl)
                    &&& lexer.cursor() == next_line_start(s, cl)
                },
                !closed ==> lexer.cursor() == s.len(),
            decreases s.len() - lexer.cursor(),
        {
            let ghost cn = lexer.cursor();
            let peeked2 = lexer.peek_line();
            let line2 = match peeked2 {
                Some(l) => l,
                None => {
                    proof {
                        assert(meta_entries(s, cn) =~= Seq::<(Seq<u8>, Seq<u8>, int, int)>::empty());
                        assert(done + Seq::<(Seq<u8>, Seq<u8>, int, int)>::empty() =~= done);
                    }
                    break;
                },
            };
            let lt2 = line2.trimmed();
            proof {
                assert(lt2@.subrange(0, lt2@.len() as int) =~= lt2@);
                assert(lt2@ == crate::bytes::trim_of(line_text(s, cn)));
            }
            if crate::bytes::range_is(lt2.as_slice(), 0, lt2.len(), dashes.as_slice()) {
                end_span = line2.span;
                let consumed = take_line(lexer);
                closed = true;
                proof {
                    assert(meta_entries(s, cn) =~= Seq::<(Seq<u8>, Seq<u8>, int, int)>::empty());
                    assert(done + Seq::<(Seq<u8>, Seq<u8>, int, int)>::empty() =~= done);
                    assert(fence_close_at(s, cn, kw_dashes()) == cn);
                }
                break;
            }
            let consumed = take_line(lexer);
            let text = &consumed.text;
            let ghost pre = done;
            match find_byte_in(text.as_slice(), 0, text.len(), 58) {
                Some(cp) => {
                    let (klo, khi) = trim_bounds(text.as_slice(), 0, cp);
                    let (vlo, vhi) = trim_bounds(text.as_slice(), cp + 1, text.len());
                    let key = copy_range(text.as_slice(), klo, khi);
                    let value = self.parse_attr_value(text.as_slice(), vlo, vhi);
                    entries.push((key, value));
                    proof {
                        let t = line_text(s, cn);
                        let entry = (
                            trim_range(t, 0, cp as int),
                            t,
                            crate::bytes::trim_lo(t, cp + 1, t.len() as int),
                            crate::bytes::trim_hi(t, cp + 1, t.len() as int),
                        );
                        done = done.push(entry);
                        assert(meta_entries(s, cn) == seq![entry] + meta_entries(
                            s,
                            next_line_start(s, cn),
                        ));
                        assert(pre + (seq![entry] + meta_entries(s, next_line_start(s, cn)))
                            =~= done + meta_entries(s, next_line_start(s, cn)));
                        assert(entries_match(entries@, done));
                    }
                },
                None => {
                    proof {
                        assert(meta_entries(s, cn) == seq![] + meta_entries(
                            s,
                            next_line_start(s, cn),
                        ));
                        assert(pre + (seq![] + meta_entries(s, next_line_start(s, cn)))
                            =~= done + meta_entries(s, next_line_start(s, cn)));
                    }
                },
            }
            end_span = consumed.span;
        }
        Some(Metadata { entries, span: Span::new(opener.span.start, end_span.end) })
    }

    /// Dispatch a `::name` fence to its block parser; an unknown name
    /// records an `UnknownDirective` error (in recovery mode) and keeps
    /// the content as a raw block.
    #[verifier::rlimit(100)]
    #[verifier::spinoff_prover]
    fn parse_fenced_block(&mut self, lexer: &mut Lexer, input: &[u8]) -> (r: Block)
        requires
            old(lexer).wf(),
            old(lexer).inp() == input@,
            old(lexer).cursor() < input@.len(),
        ensures
            final(lexer).wf(),
            final(lexer).inp() == input@,
            old(lexer).cursor() < final(lexer).cursor() <= input@.len(),
            block_wf(r),
            old(lexer).cursor() <= block_span(r).start as int,
            block_span(r).end as int <= final(lexer).cursor(),
            !(r is ThematicBreak) && !(r is Heading) && !(r is Paragraph),
            ({
                let s = old(lexer).inp();
                let c0 = old(lexer).cursor();
                let t = crate::bytes::trim_of(line_text(s, c0));
                is_fence_line(t) ==> {
                    &&& fenced_match(s, c0, old(self).spec_modules().contains(Module::Html), r)
                    &&& final(lexer).cursor() == fenced_stop(s, c0)
                }
            }),
            ({
                let s = old(lexer).inp();
                let c0 = old(lexer).cursor();
                let t = crate::bytes::trim_of(line_text(s, c0));
                let name = directive_name(t);
                let known = name == kw_list() || name == kw_callout() || name == kw_quote()
                    || name == kw_figure() || name == kw_table() || name == kw_footnotes()
                    || name == kw_math() || name == kw_html();
                (is_fence_line(t) && !known) ==> (if old(self).spec_recover() && name.len() > 0 {
                    &&& final(self).spec_errors().len() == old(self).spec_errors().len() + 1
                    &&& final(self).spec_errors().subrange(
                        0,
                        old(self).spec_errors().len() as int,
                    ) == old(self).spec_errors()
                    &&& final(self).spec_errors().last().kind
                        == crate::error::ParseErrorKind::UnknownDirective
                    &&& final(self).spec_errors().last().message@ == kw_msg_unknown() + name
                } else {
                    final(self).spec_errors() == old(self).spec_errors()
                })
            }),
            final(self).spec_profile() == old(self).spec_profile(),
            final(self).spec_modules() == old(self).spec_modules(),
            final(self).spec_recover() == old(self).spec_recover(),
    {
        let peeked = lexer.peek_line();
        let line = match peeked {
            Some(l) => l,
            None => {
                proof {
                    assert(false);
                }
                return self.parse_raw_fenced_block(lexer, input);
            },
        };
        let ghost s = input@;
        let ghost c0 = old(lexer).cursor();
        let lt = line.trimmed();
        let t = lt.as_slice();
        let n = lt.len();
        let colons = kw_colons_v();
        proof {
            assert(lt@.subrange(0, lt@.len() as int) =~= lt@);
            assert(lt@ == crate::bytes::trim_of(line_text(s, c0)));
        }
        let mut nstart: usize = n;
        let mut nend: usize = n;
        let opened = starts_with_at(t, 0, n, colons.as_slice());
        if opened {
            nstart = crate::bytes::first_non_ws(t, 2, n);
            nend = crate::bytes::first_ws(t, nstart, n);
        }
        let ghost name = lt@.subrange(nstart as int, nend as int);
        proof {
            if opened {
                assert(name == directive_name(lt@));
            }
        }
        let ghost html_on = self.spec_modules().contains(Module::Html);
        let list_w = kw_list_v();
        let callout_w = kw_callout_v();
        let quote_w = kw_quote_v();
        let figure_w = kw_figure_v();
        let table_w = kw_table_v();
        let footnotes_w = kw_footnotes_v();
        let math_w = kw_math_v();
        let html_w = kw_html_v();
        if crate::bytes::range_is(t, nstart, nend, list_w.as_slice()) {
            let r = self.parse_list_block(lexer, input);
            proof {
                if opened {
                    assert(fenced_match(s, c0, html_on, r));
                    assert(lexer.cursor() == fenced_stop(s, c0));
                }
            }
            r
        } else if crate::bytes::range_is(t, nstart, nend, callout_w.as_slice()) {
            let r = self.parse_callout_block(lexer, input);
            proof {
                if opened {
                    assert(fenced_match(s, c0, html_on, r));
                    assert(lexer.cursor() == fenced_stop(s, c0));
                }
            }
            r
        } else if crate::bytes::range_is(t, nstart, nend, quote_w.as_slice()) {
            let r = self.parse_quote_block(lexer, input);
            proof {
                if opened {
                    assert(fenced_match(s, c0, html_on, r));
                    assert(lexer.cursor() == fenced_stop(s, c0));
                }
            }
            r
        } else if crate::bytes::range_is(t, nstart, nend, figure_w.as_slice()) {
            let r = self.parse_figure_block(lexer, input);
            proof {
                if opened {
                    assert(fenced_match(s, c0, html_on, r));
                    assert(lexer.cursor() == fenced_stop(s, c0));
                }
            }
            r
        } else if crate::bytes::range_is(t, nstart, nend, table_w.as_slice()) {
            let r = self.parse_table_block(lexer, input);
            proof {
                if opened {
                    assert(fenced_match(s, c0, html_on, r));
                    assert(lexer.cursor() == fenced_stop(s, c0));
                }
            }
            r
        } else if crate::bytes::range_is(t, nstart, nend, footnotes_w.as_slice()) {
            let r = self.parse_footnotes_block(lexer, input);
            proof {
                if opened {
                    assert(fenced_match(s, c0, html_on, r));
                    assert(lexer.cursor() == fenced_stop(s, c0));
                }
            }
            r
        } else if crate::bytes::range_is(t, nstart, nend, math_w.as_slice()) {
            let r = self.parse_math_block(lexer, input);
            proof {
                if opened {
                    assert(fenced_match(s, c0, html_on, r));
                    assert(lexer.cursor() == fenced_stop(s, c0));
                }
            }
            r
        } else if crate::bytes::range_is(t, nstart, nend, html_w.as_slice()) {
            let r = self.parse_html_block(lexer, input);
            proof {
                if opened {
                    assert(fenced_match(s, c0, html_on, r));
                    assert(lexer.cursor() == fenced_stop(s, c0));
                }
            }
            r
        } else {
            if self.recover_on_error && nend > nstart {
                let unknown = vstd::slice::slice_subrange(t, nstart, nend);
                self.record_error(ParseError::unknown_directive(unknown, Some(line.span)));
                proof {
                    assert(self.spec_errors().subrange(0, old(self).spec_errors().len() as int)
                        =~= old(self).spec_errors());
                }
            }
            let r = self.parse_raw_fenced_block(lexer, input);
            proof {
                if opened {
                    assert(fenced_match(s, c0, html_on, r));
                    assert(lexer.cursor() == fenced_stop(s, c0));
                }
            }
            r
        }
    }

    /// Dispatch on the first byte of the trimmed line at the cursor.
    fn parse_block(&mut self, lexer: &mut Lexer, input: &[u8]) -> (r: Block)
        requires
            old(lexer).wf(),
            old(lexer).inp() == input@,
            old(lexer).cursor() < input@.len(),
        ensures
            final(lexer).wf(),
            final(lexer).inp() == input@,
            old(lexer).cursor() < final(lexer).cursor() <= input@.len(),
            block_wf(r),
            old(lexer).cursor() <= block_span(r).start as int,
            block_span(r).end as int <= final(lexer).cursor(),
            (r is ThematicBreak) == (crate::bytes::trim_of(
                line_text(old(lexer).inp(), old(lexer).cursor()),
            ) == kw_dashes()),
            block_match_at(
                old(lexer).inp(),
                old(lexer).cursor(),
                old(self).spec_modules().contains(Module::Html),
                r,
            ),
            final(lexer).cursor() == block_stop_at(old(lexer).inp(), old(lexer).cursor()),
            final(self).spec_profile() == old(self).spec_profile(),
            final(self).spec_modules() == old(self).spec_modules(),
            final(self).spec_recover() == old(self).spec_recover(),
    {
        let ghost s = input@;
        let ghost c0 = old(lexer).cursor();
        let ghost html_on = self.spec_modules().contains(Module::Html);
        let peeked = lexer.peek_line();
        let line = match peeked {
            Some(l) => l,
            None => {
                proof {
                    assert(false);
                }
                return self.parse_paragraph(lexer, input);
            },
        };
        let lt = line.trimmed();
        let ticks = kw_backticks_v();
        let dashes = kw_dashes_v();
        let colons = kw_colons_v();
        proof {
            assert(lt@.subrange(0, lt@.len() as int) =~= lt@);
            assert(lt@ == crate::bytes::trim_of(line_text(s, c0)));
            if lt@ == kw_dashes() {
                assert(lt@.len() == 3);
                assert(lt@[0] == 45);
            }
        }
        if lt.len() > 0 {
            let b = lt[0];
            if b == 35 {
                let r = self.parse_heading(lexer, input);
                proof {
                    assert(block_match_at(s, c0, html_on, r));
                }
                return r;
            }
            if b == 96 && starts_with_at(lt.as_slice(), 0, lt.len(), ticks.as_slice()) {
                let r = self.parse_code_block(lexer, input);
                proof {
                    assert(block_match_at(s, c0, html_on, r));
                }
                return r;
            }
            if b == 45 && crate::bytes::range_is(lt.as_slice(), 0, lt.len(), dashes.as_slice()) {
                let consumed = take_line(lexer);
                let r = Block::ThematicBreak(consumed.span);
                proof {
                    assert(block_match_at(s, c0, html_on, r));
                }
                return r;
            }
            if b == 58 && starts_with_at(lt.as_slice(), 0, lt.len(), colons.as_slice()) {
                let r = self.parse_fenced_block(lexer, input);
                proof {
                    assert(is_fence_line(lt@));
                    assert(block_match_at(s, c0, html_on, r));
                }
                return r;
            }
        }
        let r = self.parse_paragraph(lexer, input);
        proof {
            assert(block_match_at(s, c0, html_on, r));
        }
        r
    }

    /// Parse blocks until the end of input, skipping blank lines between
    /// them.
    fn parse_blocks(&mut self, lexer: &mut Lexer, input: &[u8]) -> (r: Vec<Block>)
        requires
            old(lexer).wf(),
            old(lexer).inp() == input@,
        ensures
            final(lexer).wf(),
            final(lexer).inp() == input@,
            final(lexer).cursor() == input@.len(),
            blocks_in_range(r@, old(lexer).cursor(), input@.len() as int),
            doc_blocks_match(
                r@,
                input@,
                old(lexer).cursor(),
                old(self).spec_modules().contains(Module::Html),
            ),
            final(self).spec_profile() == old(self).spec_profile(),
            final(self).spec_modules() == old(self).spec_modules(),
            final(self).spec_recover() == old(self).spec_recover(),
            old(lexer).cursor() == input@.len() ==> (r@.len() == 0 && final(self).spec_errors()
                == old(self).spec_errors()),
    {
        let ghost s = input@;
        let ghost c0 = old(lexer).cursor();
        let ghost html_on = self.spec_modules().contains(Module::Html);
        proof {
            lexer.lemma_cursor_bounds();
        }
        let mut blocks: Vec<Block> = Vec::new();
        if lexer.is_eof() {
            proof {
                assert(skip_blanks(s, c0) == c0);
                assert(block_cursors(s, c0) =~= Seq::<int>::empty());
            }
            return blocks;
        }
        let ghost mut done: Seq<int> = Seq::empty();
        proof {
            assert(Seq::<int>::empty() + block_cursors(s, c0) =~= block_cursors(s, c0));
        }
        loop
            invariant_except_break
                block_cursors(s, c0) == done + block_cursors(s, lexer.cursor()),
            invariant
                old(lexer).inp() == s,
                old(lexer).cursor() == c0,
                s == input@,
                lexer.wf(),
                lexer.inp() == s,
                0 <= c0 <= lexer.cursor() <= s.len(),
                blocks_in_range(blocks@, c0, lexer.cursor()),
                blocks@.len() == done.len(),
                forall|k: int|
                    0 <= k < blocks@.len() ==> block_match_at(
                        s,
                        done[k],
                        html_on,
                        #[trigger] blocks@[k],
                    ),
                html_on == old(self).spec_modules().contains(Module::Html),
                self.spec_profile() == old(self).spec_profile(),
                self.spec_modules() == old(self).spec_modules(),
                self.spec_recover() == old(self).spec_recover(),
            ensures
                lexer.wf(),
                lexer.inp() == s,
                lexer.cursor() == s.len(),
                blocks_in_range(blocks@, c0, s.len() as int),
                doc_blocks_match(blocks@, s, c0, html_on),
                self.spec_profile() == old(self).spec_profile(),
                self.spec_modules() == old(self).spec_modules(),
                self.spec_recover() == old(self).spec_recover(),
            decreases s.len() - lexer.cursor(),
        {
            let ghost ch = lexer.cursor();
            if lexer.is_eof() {
                proof {
                    assert(skip_blanks(s, ch) == ch);
                    assert(block_cursors(s, ch) =~= Seq::<int>::empty());
                    assert(done + Seq::<int>::empty() =~= done);
                    assert(block_cursors(s, c0) =~= done);
                }
                break;
            }
            lexer.skip_blank_lines();
            proof {
                lexer.lemma_cursor_bounds();
                assert(lexer.cursor() == skip_blanks(s, ch));
            }
            if lexer.is_eof() {
                proof {
                    assert(skip_blanks(s, ch) == s.len());
                    assert(block_cursors(s, ch) =~= Seq::<int>::empty());
                    assert(done + Seq::<int>::empty() =~= done);
                    assert(block_cursors(s, c0) =~= done);
                }
                break;
            }
            let ghost c1 = lexer.cursor();
            let block = self.parse_block(lexer, input);
            proof {
                assert(c1 == skip_blanks(s, ch));
                assert(c1 < s.len());
                assert(blocks_in_range(blocks@.push(block), c0, lexer.cursor()));
                assert(block_cursors(s, ch) == seq![c1] + block_cursors(
                    s,
                    block_stop_at(s, c1),
                ));
                let pre = done;
                done = done.push(c1);
                assert(done =~= pre + seq![c1]);
                assert(pre + (seq![c1] + block_cursors(s, block_stop_at(s, c1))) =~= done
                    + block_cursors(s, block_stop_at(s, c1)));
            }
            blocks.push(block);
        }
        blocks
    }

    /// Run the full pipeline over `input`.
    fn parse_internal(&mut self, input: &[u8]) -> (doc: Document)
        requires
            input@.len() <= u32::MAX,
        ensures
            document_wf(doc, input@.len() as int),
            final(self).spec_profile() == old(self).spec_profile(),
            final(self).spec_recover() == old(self).spec_recover(),
            final(self).spec_modules() == doc.modules@,
            doc.profile == ({
                let c1 = skip_blanks(input@, 0);
                match profile_at(input@, c1) {
                    Some(p) => p,
                    None => old(self).spec_profile(),
                }
            }),
            doc.modules@ == ({
                let c1 = skip_blanks(input@, 0);
                let c2 = match profile_at(input@, c1) {
                    Some(p) => skip_blanks(input@, next_line_start(input@, c1)),
                    None => c1,
                };
                modules_at(input@, c2)
            }),
            (doc.metadata is Some) == metadata_opener_at(input@, prologue_meta_at(input@)),
            doc.metadata matches Some(m) ==> (m.span.start as int == prologue_meta_at(input@)
                && entries_match(
                m.entries@,
                meta_entries(input@, next_line_start(input@, prologue_meta_at(input@))),
            )),
            doc_blocks_match(
                doc.blocks@,
                input@,
                prologue_end(input@),
                doc.modules@.contains(Module::Html),
            ),
            ws_only(input@) ==> {
                &&& doc.blocks@.len() == 0
                &&& doc.metadata is None
                &&& doc.modules@.len() == 0
                &&& doc.profile == old(self).spec_profile()
                &&& final(self).spec_errors() == old(self).spec_errors()
            },
    {
        let ghost s = input@;
        let mut lexer = Lexer::new(input);
        proof {
            if ws_only(s) {
                lemma_ws_only_skip_blanks(s, 0);
            }
        }
        lexer.skip_blank_lines();
        let profile = self.parse_profile_directive(&mut lexer);
        let modules = self.parse_modules_directive(&mut lexer);
        self.modules = dup_modules(&modules);
        lexer.skip_blank_lines();
        proof {
            assert(lexer.cursor() == prologue_meta_at(s));
        }
        let metadata = self.parse_metadata(&mut lexer, input);
        proof {
            assert(lexer.cursor() == prologue_end(s));
            lexer.lemma_cursor_bounds();
        }
        lexer.skip_blank_lines();
        let ghost c_blocks = lexer.cursor();
        proof {
            lemma_block_cursors_skip(s, prologue_end(s));
        }
        let blocks = self.parse_blocks(&mut lexer, input);
        let doc_profile = match profile {
            Some(p) => p,
            None => self.profile,
        };
        let span = Span::new(0, input.len() as u32);
        let doc = Document { profile: doc_profile, modules, metadata, blocks, span };
        proof {
            lemma_blocks_in_range_wf(doc.blocks@, c_blocks, s.len() as int, span);
        }
        doc
    }

    /// Parse `input`, returning the document, or the first recorded error
    /// when any error occurred.
    ///
    /// The returned document covers the whole input and satisfies the span
    /// and heading invariants ([`document_wf`]); input holding only
    /// spaces, tabs and newlines yields a document with no blocks.
    pub fn parse(&mut self, input: &[u8]) -> (r: Result<Document, ParseError>)
        requires
            input@.len() <= u32::MAX,
        ensures
            final(self).spec_profile() == old(self).spec_profile(),
            final(self).spec_recover() == old(self).spec_recover(),
            match r {
                Ok(doc) => {
                    &&& final(self).spec_errors().len() == 0
                    &&& document_wf(doc, input@.len() as int)
                    &&& final(self).spec_modules() == doc.modules@
                    &&& doc.profile == ({
                        let c1 = skip_blanks(input@, 0);
                        match profile_at(input@, c1) {
                            Some(p) => p,
                            None => old(self).spec_profile(),
                        }
                    })
                    &&& doc.modules@ == ({
                        let c1 = skip_blanks(input@, 0);
                        let c2 = match profile_at(input@, c1) {
                            Some(p) => skip_blanks(input@, next_line_start(input@, c1)),
                            None => c1,
                        };
                        modules_at(input@, c2)
                    })
                    &&& (doc.metadata is Some) == metadata_opener_at(
                        input@,
                        prologue_meta_at(input@),
                    )
                    &&& (doc.metadata matches Some(m) ==> (m.span.start as int
                        == prologue_meta_at(input@) && entries_match(
                        m.entries@,
                        meta_entries(input@, next_line_start(input@, prologue_meta_at(input@))),
                    )))
                    &&& doc_blocks_match(
                        doc.blocks@,
                        input@,
                        prologue_end(input@),
                        doc.modules@.contains(Module::Html),
                    )
                    &&& ws_only(input@) ==> (doc.blocks@.len() == 0 && doc.metadata is None
                        && doc.modules@.len() == 0)
                },
                Err(e) => final(self).spec_errors().len() > 0 && err_equiv(
                    e,
                    final(self).spec_errors()[0],
                ),
            },
            ws_only(input@) ==> r is Ok,
    {
        self.errors = ParseErrors::new();
        let doc = self.parse_internal(input);
        if self.errors.is_empty() {
            Ok(doc)
        } else {
            Err(self.errors.get(0).duplicate())
        }
    }

    /// Parse `input` with recovery: always returns the (possibly partial)
    /// document together with every recorded error.
    pub fn parse_with_recovery(&mut self, input: &[u8]) -> (r: ParseResult)
        requires
            input@.len() <= u32::MAX,
        ensures
            final(self).spec_profile() == old(self).spec_profile(),
            final(self).spec_recover() == old(self).spec_recover(),
            final(self).spec_errors().len() == 0,
            document_wf(r.document, input@.len() as int),
            r.document.profile == ({
                let c1 = skip_blanks(input@, 0);
                match profile_at(input@, c1) {
                    Some(p) => p,
                    None => old(self).spec_profile(),
                }
            }),
            r.document.modules@ == ({
                let c1 = skip_blanks(input@, 0);
                let c2 = match profile_at(input@, c1) {
                    Some(p) => skip_blanks(input@, next_line_start(input@, c1)),
                    None => c1,
                };
                modules_at(input@, c2)
            }),
            final(self).spec_modules() == r.document.modules@,
            (r.document.metadata is Some) == metadata_opener_at(
                input@,
                prologue_meta_at(input@),
            ),
            r.document.metadata matches Some(m) ==> (m.span.start as int == prologue_meta_at(
                input@,
            ) && entries_match(
                m.entries@,
                meta_entries(input@, next_line_start(input@, prologue_meta_at(input@))),
            )),
            doc_blocks_match(
                r.document.blocks@,
                input@,
                prologue_end(input@),
                r.document.modules@.contains(Module::Html),
            ),
            ws_only(input@) ==> (r.document.blocks@.len() == 0 && r.document.metadata is None
                && r.errors@.len() == 0),
    {
        self.errors = ParseErrors::new();
        let document = self.parse_internal(input);
        let mut errors = ParseErrors::new();
        core::mem::swap(&mut self.errors, &mut errors);
        ParseResult { document, errors }
    }
}

/// Copy a module list (modules are plain values).
fn dup_modules(v: &Vec<Module>) -> (r: Vec<Module>)
    ensures
        r@ == v@,
{
    let mut r: Vec<Module> = Vec::new();
    let mut i: usize = 0;
    while i < v.len()
        invariant
            0 <= i <= v@.len(),
            r@ == v@.subrange(0, i as int),
        decreases v@.len() - i,
    {
        r.push(v[i]);
        proof {
            assert(r@ =~= v@.subrange(0, i + 1));
        }
        i += 1;
    }
    proof {
        assert(r@ =~= v@);
    }
    r
}

} // verus!
