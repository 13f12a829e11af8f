//! The fixed words of the syntax.
//!
//! Each word has a spec-level byte sequence and an executable constructor
//! proved to produce exactly those bytes. All words are ASCII.

use vstd::prelude::*;

verus! {

/// The bytes of `"@profile"`.
pub open spec fn kw_at_profile() -> Seq<u8> {
    seq![64u8, 112, 114, 111, 102, 105, 108, 101]
}

/// Builds the bytes of `"@profile"`.
pub fn kw_at_profile_v() -> (v: Vec<u8>)
    ensures
        v@ == kw_at_profile(),
{
    let a: [u8; 8] = [64, 112, 114, 111, 102, 105, 108, 101];
    let v = vstd::slice::slice_to_vec(a.as_slice());
    proof {
        assert(v@ =~= kw_at_profile());
    }
    v
}

/// The bytes of `"@modules"`.
pub open spec fn kw_at_modules() -> Seq<u8> {
    seq![64u8, 109, 111, 100, 117, 108, 101, 115]
}

/// Builds the bytes of `"@modules"`.
pub fn kw_at_modules_v() -> (v: Vec<u8>)
    ensures
        v@ == kw_at_modules(),
{
    let a: [u8; 8] = [64, 109, 111, 100, 117, 108, 101, 115];
    let v = vstd::slice::slice_to_vec(a.as_slice());
    proof {
        assert(v@ =~= kw_at_modules());
    }
    v
}

/// The bytes of `"litedoc"`.
pub open spec fn kw_litedoc() -> Seq<u8> {
    seq![108u8, 105, 116, 101, 100, 111, 99]
}

/// Builds the bytes of `"litedoc"`.
pub fn kw_litedoc_v() -> (v: Vec<u8>)
    ensures
        v@ == kw_litedoc(),
{
    let a: [u8; 7] = [108, 105, 116, 101, 100, 111, 99];
    let v = vstd::slice::slice_to_vec(a.as_slice());
    proof {
        assert(v@ =~= kw_litedoc());
    }
    v
}

/// The bytes of `"md"`.
pub open spec fn kw_md() -> Seq<u8> {
    seq![109u8, 100]
}

/// Builds the bytes of `"md"`.
pub fn kw_md_v() -> (v: Vec<u8>)
    ensures
        v@ == kw_md(),
{
    let a: [u8; 2] = [109, 100];
    let v = vstd::slice::slice_to_vec(a.as_slice());
    proof {
        assert(v@ =~= kw_md());
    }
    v
}

/// The bytes of `"md-strict"`.
pub open spec fn kw_md_strict() -> Seq<u8> {
    seq![109u8, 100, 45, 115, 116, 114, 105, 99, 116]
}

/// Builds the bytes of `"md-strict"`.
pub fn kw_md_strict_v() -> (v: Vec<u8>)
    ensures
        v@ == kw_md_strict(),
{
    let a: [u8; 9] = [109, 100, 45, 115, 116, 114, 105, 99, 116];
    let v = vstd::slice::slice_to_vec(a.as_slice());
    proof {
        assert(v@ =~= kw_md_strict());
    }
    v
}

/// The bytes of `"tables"`.
pub open spec fn kw_tables() -> Seq<u8> {
    seq![116u8, 97, 98, 108, 101, 115]
}

/// Builds the bytes of `"tables"`.
pub fn kw_tables_v() -> (v: Vec<u8>)
    ensures
        v@ == kw_tables(),
{
    let a: [u8; 6] = [116, 97, 98, 108, 101, 115];
    let v = vstd::slice::slice_to_vec(a.as_slice());
    proof {
        assert(v@ =~= kw_tables());
    }
    v
}

/// The bytes of `"footnotes"`.
pub open spec fn kw_footnotes() -> Seq<u8> {
    seq![102u8, 111, 111, 116, 110, 111, 116, 101, 115]
}

/// Builds the bytes of `"footnotes"`.
pub fn kw_footnotes_v() -> (v: Vec<u8>)
    ensures
        v@ == kw_footnotes(),
{
    let a: [u8; 9] = [102, 111, 111, 116, 110, 111, 116, 101, 115];
    let v = vstd::slice::slice_to_vec(a.as_slice());
    proof {
        assert(v@ =~= kw_footnotes());
    }
    v
}

/// The bytes of `"math"`.
pub open spec fn kw_math() -> Seq<u8> {
    seq![109u8, 97, 116, 104]
}

/// Builds the bytes of `"math"`.
pub fn kw_math_v() -> (v: Vec<u8>)
    ensures
        v@ == kw_math(),
{
    let a: [u8; 4] = [109, 97, 116, 104];
    let v = vstd::slice::slice_to_vec(a.as_slice());
    proof {
        assert(v@ =~= kw_math());
    }
    v
}

/// The bytes of `"tasks"`.
pub open spec fn kw_tasks() -> Seq<u8> {
    seq![116u8, 97, 115, 107, 115]
}

/// Builds the bytes of `"tasks"`.
pub fn kw_tasks_v() -> (v: Vec<u8>)
    ensures
        v@ == kw_tasks(),
{
    let a: [u8; 5] = [116, 97, 115, 107, 115];
    let v = vstd::slice::slice_to_vec(a.as_slice());
    proof {
        assert(v@ =~= kw_tasks());
    }
    v
}

/// The bytes of `"strikethrough"`.
pub open spec fn kw_strikethrough() -> Seq<u8> {
    seq![115u8, 116, 114, 105, 107, 101, 116, 104, 114, 111, 117, 103, 104]
}

/// Builds the bytes of `"strikethrough"`.
pub fn kw_strikethrough_v() -> (v: Vec<u8>)
    ensures
        v@ == kw_strikethrough(),
{
    let a: [u8; 13] = [115, 116, 114, 105, 107, 101, 116, 104, 114, 111, 117, 103, 104];
    let v = vstd::slice::slice_to_vec(a.as_slice());
    proof {
        assert(v@ =~= kw_strikethrough());
    }
    v
}

/// The bytes of `"autolink"`.
pub open spec fn kw_autolink() -> Seq<u8> {
    seq![97u8, 117, 116, 111, 108, 105, 110, 107]
}

/// Builds the bytes of `"autolink"`.
pub fn kw_autolink_v() -> (v: Vec<u8>)
    ensures
        v@ == kw_autolink(),
{
    let a: [u8; 8] = [97, 117, 116, 111, 108, 105, 110, 107];
    let v = vstd::slice::slice_to_vec(a.as_slice());
    proof {
        assert(v@ =~= kw_autolink());
    }
    v
}

/// The bytes of `"html"`.
pub open spec fn kw_html() -> Seq<u8> {
    seq![104u8, 116, 109, 108]
}

/// Builds the bytes of `"html"`.
pub fn kw_html_v() -> (v: Vec<u8>)
    ensures
        v@ == kw_html(),
{
    let a: [u8; 4] = [104, 116, 109, 108];
    let v = vstd::slice::slice_to_vec(a.as_slice());
    proof {
        assert(v@ =~= kw_html());
    }
    v
}

/// The bytes of `"---"`.
pub open spec fn kw_dashes() -> Seq<u8> {
    seq![45u8, 45, 45]
}

/// Builds the bytes of `"---"`.
pub fn kw_dashes_v() -> (v: Vec<u8>)
    ensures
        v@ == kw_dashes(),
{
    let a: [u8; 3] = [45, 45, 45];
    let v = vstd::slice::slice_to_vec(a.as_slice());
    proof {
        assert(v@ =~= kw_dashes());
    }
    v
}

/// The bytes of `"meta"`.
pub open spec fn kw_meta() -> Seq<u8> {
    seq![109u8, 101, 116, 97]
}

/// Builds the bytes of `"meta"`.
pub fn kw_meta_v() -> (v: Vec<u8>)
    ensures
        v@ == kw_meta(),
{
    let a: [u8; 4] = [109, 101, 116, 97];
    let v = vstd::slice::slice_to_vec(a.as_slice());
    proof {
        assert(v@ =~= kw_meta());
    }
    v
}

/// The bytes of `"--- meta ---"`.
pub open spec fn kw_meta_rule() -> Seq<u8> {
    seq![45u8, 45, 45, 32, 109, 101, 116, 97, 32, 45, 45, 45]
}

/// Builds the bytes of `"--- meta ---"`.
pub fn kw_meta_rule_v() -> (v: Vec<u8>)
    ensures
        v@ == kw_meta_rule(),
{
    let a: [u8; 12] = [45, 45, 45, 32, 109, 101, 116, 97, 32, 45, 45, 45];
    let v = vstd::slice::slice_to_vec(a.as_slice());
    proof {
        assert(v@ =~= kw_meta_rule());
    }
    v
}

/// The bytes of `"```"`.
pub open spec fn kw_backticks() -> Seq<u8> {
    seq![96u8, 96, 96]
}

/// Builds the bytes of `"```"`.
pub fn kw_backticks_v() -> (v: Vec<u8>)
    ensures
        v@ == kw_backticks(),
{
    let a: [u8; 3] = [96, 96, 96];
    let v = vstd::slice::slice_to_vec(a.as_slice());
    proof {
        assert(v@ =~= kw_backticks());
    }
    v
}

/// The bytes of `"::"`.
pub open spec fn kw_colons() -> Seq<u8> {
    seq![58u8, 58]
}

/// Builds the bytes of `"::"`.
pub fn kw_colons_v() -> (v: Vec<u8>)
    ensures
        v@ == kw_colons(),
{
    let a: [u8; 2] = [58, 58];
    let v = vstd::slice::slice_to_vec(a.as_slice());
    proof {
        assert(v@ =~= kw_colons());
    }
    v
}

/// The bytes of `"list"`.
pub open spec fn kw_list() -> Seq<u8> {
    seq![108u8, 105, 115, 116]
}

/// Builds the bytes of `"list"`.
pub fn kw_list_v() -> (v: Vec<u8>)
    ensures
        v@ == kw_list(),
{
    let a: [u8; 4] = [108, 105, 115, 116];
    let v = vstd::slice::slice_to_vec(a.as_slice());
    proof {
        assert(v@ =~= kw_list());
    }
    v
}

/// The bytes of `"callout"`.
pub open spec fn kw_callout() -> Seq<u8> {
    seq![99u8, 97, 108, 108, 111, 117, 116]
}

/// Builds the bytes of `"callout"`.
pub fn kw_callout_v() -> (v: Vec<u8>)
    ensures
        v@ == kw_callout(),
{
    let a: [u8; 7] = [99, 97, 108, 108, 111, 117, 116];
    let v = vstd::slice::slice_to_vec(a.as_slice());
    proof {
        assert(v@ =~= kw_callout());
    }
    v
}

/// The bytes of `"quote"`.
pub open spec fn kw_quote() -> Seq<u8> {
    seq![113u8, 117, 111, 116, 101]
}

/// Builds the bytes of `"quote"`.
pub fn kw_quote_v() -> (v: Vec<u8>)
    ensures
        v@ == kw_quote(),
{
    let a: [u8; 5] = [113, 117, 111, 116, 101];
    let v = vstd::slice::slice_to_vec(a.as_slice());
    proof {
        assert(v@ =~= kw_quote());
    }
    v
}

/// The bytes of `"figure"`.
pub open spec fn kw_figure() -> Seq<u8> {
    seq![102u8, 105, 103, 117, 114, 101]
}

/// Builds the bytes of `"figure"`.
pub fn kw_figure_v() -> (v: Vec<u8>)
    ensures
        v@ == kw_figure(),
{
    let a: [u8; 6] = [102, 105, 103, 117, 114, 101];
    let v = vstd::slice::slice_to_vec(a.as_slice());
    proof {
        assert(v@ =~= kw_figure());
    }
    v
}

/// The bytes of `"table"`.
pub open spec fn kw_table() -> Seq<u8> {
    seq![116u8, 97, 98, 108, 101]
}

/// Builds the bytes of `"table"`.
pub fn kw_table_v() -> (v: Vec<u8>)
    ensures
        v@ == kw_table(),
{
    let a: [u8; 5] = [116, 97, 98, 108, 101];
    let v = vstd::slice::slice_to_vec(a.as_slice());
    proof {
        assert(v@ =~= kw_table());
    }
    v
}

/// The bytes of `"ordered"`.
pub open spec fn kw_ordered() -> Seq<u8> {
    seq![111u8, 114, 100, 101, 114, 101, 100]
}

/// Builds the bytes of `"ordered"`.
pub fn kw_ordered_v() -> (v: Vec<u8>)
    ensures
        v@ == kw_ordered(),
{
    let a: [u8; 7] = [111, 114, 100, 101, 114, 101, 100];
    let v = vstd::slice::slice_to_vec(a.as_slice());
    proof {
        assert(v@ =~= kw_ordered());
    }
    v
}

/// The bytes of `"unordered"`.
pub open spec fn kw_unordered() -> Seq<u8> {
    seq![117u8, 110, 111, 114, 100, 101, 114, 101, 100]
}

/// Builds the bytes of `"unordered"`.
pub fn kw_unordered_v() -> (v: Vec<u8>)
    ensures
        v@ == kw_unordered(),
{
    let a: [u8; 9] = [117, 110, 111, 114, 100, 101, 114, 101, 100];
    let v = vstd::slice::slice_to_vec(a.as_slice());
    proof {
        assert(v@ =~= kw_unordered());
    }
    v
}

/// The bytes of `"start="`.
pub open spec fn kw_start_eq() -> Seq<u8> {
    seq![115u8, 116, 97, 114, 116, 61]
}

/// Builds the bytes of `"start="`.
pub fn kw_start_eq_v() -> (v: Vec<u8>)
    ensures
        v@ == kw_start_eq(),
{
    let a: [u8; 6] = [115, 116, 97, 114, 116, 61];
    let v = vstd::slice::slice_to_vec(a.as_slice());
    proof {
        assert(v@ =~= kw_start_eq());
    }
    v
}

/// The bytes of `"type"`.
pub open spec fn kw_type_name() -> Seq<u8> {
    seq![116u8, 121, 112, 101]
}

/// Builds the bytes of `"type"`.
pub fn kw_type_name_v() -> (v: Vec<u8>)
    ensures
        v@ == kw_type_name(),
{
    let a: [u8; 4] = [116, 121, 112, 101];
    let v = vstd::slice::slice_to_vec(a.as_slice());
    proof {
        assert(v@ =~= kw_type_name());
    }
    v
}

/// The bytes of `"title"`.
pub open spec fn kw_title() -> Seq<u8> {
    seq![116u8, 105, 116, 108, 101]
}

/// Builds the bytes of `"title"`.
pub fn kw_title_v() -> (v: Vec<u8>)
    ensures
        v@ == kw_title(),
{
    let a: [u8; 5] = [116, 105, 116, 108, 101];
    let v = vstd::slice::slice_to_vec(a.as_slice());
    proof {
        assert(v@ =~= kw_title());
    }
    v
}

/// The bytes of `"src"`.
pub open spec fn kw_src() -> Seq<u8> {
    seq![115u8, 114, 99]
}

/// Builds the bytes of `"src"`.
pub fn kw_src_v() -> (v: Vec<u8>)
    ensures
        v@ == kw_src(),
{
    let a: [u8; 3] = [115, 114, 99];
    let v = vstd::slice::slice_to_vec(a.as_slice());
    proof {
        assert(v@ =~= kw_src());
    }
    v
}

/// The bytes of `"alt"`.
pub open spec fn kw_alt() -> Seq<u8> {
    seq![97u8, 108, 116]
}

/// Builds the bytes of `"alt"`.
pub fn kw_alt_v() -> (v: Vec<u8>)
    ensures
        v@ == kw_alt(),
{
    let a: [u8; 3] = [97, 108, 116];
    let v = vstd::slice::slice_to_vec(a.as_slice());
    proof {
        assert(v@ =~= kw_alt());
    }
    v
}

/// The bytes of `"caption"`.
pub open spec fn kw_caption() -> Seq<u8> {
    seq![99u8, 97, 112, 116, 105, 111, 110]
}

/// Builds the bytes of `"caption"`.
pub fn kw_caption_v() -> (v: Vec<u8>)
    ensures
        v@ == kw_caption(),
{
    let a: [u8; 7] = [99, 97, 112, 116, 105, 111, 110];
    let v = vstd::slice::slice_to_vec(a.as_slice());
    proof {
        assert(v@ =~= kw_caption());
    }
    v
}

/// The bytes of `"block"`.
pub open spec fn kw_block() -> Seq<u8> {
    seq![98u8, 108, 111, 99, 107]
}

/// Builds the bytes of `"block"`.
pub fn kw_block_v() -> (v: Vec<u8>)
    ensures
        v@ == kw_block(),
{
    let a: [u8; 5] = [98, 108, 111, 99, 107];
    let v = vstd::slice::slice_to_vec(a.as_slice());
    proof {
        assert(v@ =~= kw_block());
    }
    v
}

/// The bytes of `"display"`.
pub open spec fn kw_display() -> Seq<u8> {
    seq![100u8, 105, 115, 112, 108, 97, 121]
}

/// Builds the bytes of `"display"`.
pub fn kw_display_v() -> (v: Vec<u8>)
    ensures
        v@ == kw_display(),
{
    let a: [u8; 7] = [100, 105, 115, 112, 108, 97, 121];
    let v = vstd::slice::slice_to_vec(a.as_slice());
    proof {
        assert(v@ =~= kw_display());
    }
    v
}

/// The bytes of `"- "`.
pub open spec fn kw_dash_item() -> Seq<u8> {
    seq![45u8, 32]
}

/// Builds the bytes of `"- "`.
pub fn kw_dash_item_v() -> (v: Vec<u8>)
    ensures
        v@ == kw_dash_item(),
{
    let a: [u8; 2] = [45, 32];
    let v = vstd::slice::slice_to_vec(a.as_slice());
    proof {
        assert(v@ =~= kw_dash_item());
    }
    v
}

/// The bytes of `"| "`.
pub open spec fn kw_pipe_cont() -> Seq<u8> {
    seq![124u8, 32]
}

/// Builds the bytes of `"| "`.
pub fn kw_pipe_cont_v() -> (v: Vec<u8>)
    ensures
        v@ == kw_pipe_cont(),
{
    let a: [u8; 2] = [124, 32];
    let v = vstd::slice::slice_to_vec(a.as_slice());
    proof {
        assert(v@ =~= kw_pipe_cont());
    }
    v
}

/// The bytes of `"[^"`.
pub open spec fn kw_footref_open() -> Seq<u8> {
    seq![91u8, 94]
}

/// Builds the bytes of `"[^"`.
pub fn kw_footref_open_v() -> (v: Vec<u8>)
    ensures
        v@ == kw_footref_open(),
{
    let a: [u8; 2] = [91, 94];
    let v = vstd::slice::slice_to_vec(a.as_slice());
    proof {
        assert(v@ =~= kw_footref_open());
    }
    v
}

/// The bytes of `"]:"`.
pub open spec fn kw_footdef_sep() -> Seq<u8> {
    seq![93u8, 58]
}

/// Builds the bytes of `"]:"`.
pub fn kw_footdef_sep_v() -> (v: Vec<u8>)
    ensures
        v@ == kw_footdef_sep(),
{
    let a: [u8; 2] = [93, 58];
    let v = vstd::slice::slice_to_vec(a.as_slice());
    proof {
        assert(v@ =~= kw_footdef_sep());
    }
    v
}

/// The bytes of `"true"`.
pub open spec fn kw_true_lit() -> Seq<u8> {
    seq![116u8, 114, 117, 101]
}

/// Builds the bytes of `"true"`.
pub fn kw_true_lit_v() -> (v: Vec<u8>)
    ensures
        v@ == kw_true_lit(),
{
    let a: [u8; 4] = [116, 114, 117, 101];
    let v = vstd::slice::slice_to_vec(a.as_slice());
    proof {
        assert(v@ =~= kw_true_lit());
    }
    v
}

/// The bytes of `"false"`.
pub open spec fn kw_false_lit() -> Seq<u8> {
    seq![102u8, 97, 108, 115, 101]
}

/// Builds the bytes of `"false"`.
pub fn kw_false_lit_v() -> (v: Vec<u8>)
    ensures
        v@ == kw_false_lit(),
{
    let a: [u8; 5] = [102, 97, 108, 115, 101];
    let v = vstd::slice::slice_to_vec(a.as_slice());
    proof {
        assert(v@ =~= kw_false_lit());
    }
    v
}

/// The bytes of `"://"`.
pub open spec fn kw_scheme_sep() -> Seq<u8> {
    seq![58u8, 47, 47]
}

/// Builds the bytes of `"://"`.
pub fn kw_scheme_sep_v() -> (v: Vec<u8>)
    ensures
        v@ == kw_scheme_sep(),
{
    let a: [u8; 3] = [58, 47, 47];
    let v = vstd::slice::slice_to_vec(a.as_slice());
    proof {
        assert(v@ =~= kw_scheme_sep());
    }
    v
}

/// The bytes of `"mailto:"`.
pub open spec fn kw_mailto() -> Seq<u8> {
    seq![109u8, 97, 105, 108, 116, 111, 58]
}

/// Builds the bytes of `"mailto:"`.
pub fn kw_mailto_v() -> (v: Vec<u8>)
    ensures
        v@ == kw_mailto(),
{
    let a: [u8; 7] = [109, 97, 105, 108, 116, 111, 58];
    let v = vstd::slice::slice_to_vec(a.as_slice());
    proof {
        assert(v@ =~= kw_mailto());
    }
    v
}

/// The bytes of `"note"`.
pub open spec fn kw_note() -> Seq<u8> {
    seq![110u8, 111, 116, 101]
}

/// Builds the bytes of `"note"`.
pub fn kw_note_v() -> (v: Vec<u8>)
    ensures
        v@ == kw_note(),
{
    let a: [u8; 4] = [110, 111, 116, 101];
    let v = vstd::slice::slice_to_vec(a.as_slice());
    proof {
        assert(v@ =~= kw_note());
    }
    v
}

/// The bytes of `"::list"`.
pub open spec fn kw_colons_list() -> Seq<u8> {
    seq![58u8, 58, 108, 105, 115, 116]
}

/// Builds the bytes of `"::list"`.
pub fn kw_colons_list_v() -> (v: Vec<u8>)
    ensures
        v@ == kw_colons_list(),
{
    let a: [u8; 6] = [58, 58, 108, 105, 115, 116];
    let v = vstd::slice::slice_to_vec(a.as_slice());
    proof {
        assert(v@ =~= kw_colons_list());
    }
    v
}

/// The bytes of `"::table"`.
pub open spec fn kw_colons_table() -> Seq<u8> {
    seq![58u8, 58, 116, 97, 98, 108, 101]
}

/// Builds the bytes of `"::table"`.
pub fn kw_colons_table_v() -> (v: Vec<u8>)
    ensures
        v@ == kw_colons_table(),
{
    let a: [u8; 7] = [58, 58, 116, 97, 98, 108, 101];
    let v = vstd::slice::slice_to_vec(a.as_slice());
    proof {
        assert(v@ =~= kw_colons_table());
    }
    v
}

/// The bytes of `"HTML block"`.
pub open spec fn kw_html_block() -> Seq<u8> {
    seq![72u8, 84, 77, 76, 32, 98, 108, 111, 99, 107]
}

/// Builds the bytes of `"HTML block"`.
pub fn kw_html_block_v() -> (v: Vec<u8>)
    ensures
        v@ == kw_html_block(),
{
    let a: [u8; 10] = [72, 84, 77, 76, 32, 98, 108, 111, 99, 107];
    let v = vstd::slice::slice_to_vec(a.as_slice());
    proof {
        assert(v@ =~= kw_html_block());
    }
    v
}

/// The bytes of `"list item"`.
pub open spec fn kw_list_item() -> Seq<u8> {
    seq![108u8, 105, 115, 116, 32, 105, 116, 101, 109]
}

/// Builds the bytes of `"list item"`.
pub fn kw_list_item_v() -> (v: Vec<u8>)
    ensures
        v@ == kw_list_item(),
{
    let a: [u8; 9] = [108, 105, 115, 116, 32, 105, 116, 101, 109];
    let v = vstd::slice::slice_to_vec(a.as_slice());
    proof {
        assert(v@ =~= kw_list_item());
    }
    v
}

/// The bytes of `"unexpected end of input"`.
pub open spec fn kw_msg_eof() -> Seq<u8> {
    seq![117u8, 110, 101, 120, 112, 101, 99, 116, 101, 100, 32, 101, 110, 100, 32, 111, 102, 32, 105, 110, 112, 117, 116]
}

/// Builds the bytes of `"unexpected end of input"`.
pub fn kw_msg_eof_v() -> (v: Vec<u8>)
    ensures
        v@ == kw_msg_eof(),
{
    let a: [u8; 23] = [117, 110, 101, 120, 112, 101, 99, 116, 101, 100, 32, 101, 110, 100, 32, 111, 102, 32, 105, 110, 112, 117, 116];
    let v = vstd::slice::slice_to_vec(a.as_slice());
    proof {
        assert(v@ =~= kw_msg_eof());
    }
    v
}

/// The bytes of `"unclosed "`.
pub open spec fn kw_msg_unclosed() -> Seq<u8> {
    seq![117u8, 110, 99, 108, 111, 115, 101, 100, 32]
}

/// Builds the bytes of `"unclosed "`.
pub fn kw_msg_unclosed_v() -> (v: Vec<u8>)
    ensures
        v@ == kw_msg_unclosed(),
{
    let a: [u8; 9] = [117, 110, 99, 108, 111, 115, 101, 100, 32];
    let v = vstd::slice::slice_to_vec(a.as_slice());
    proof {
        assert(v@ =~= kw_msg_unclosed());
    }
    v
}

/// The bytes of `"invalid syntax in "`.
pub open spec fn kw_msg_invalid() -> Seq<u8> {
    seq![105u8, 110, 118, 97, 108, 105, 100, 32, 115, 121, 110, 116, 97, 120, 32, 105, 110, 32]
}

/// Builds the bytes of `"invalid syntax in "`.
pub fn kw_msg_invalid_v() -> (v: Vec<u8>)
    ensures
        v@ == kw_msg_invalid(),
{
    let a: [u8; 18] = [105, 110, 118, 97, 108, 105, 100, 32, 115, 121, 110, 116, 97, 120, 32, 105, 110, 32];
    let v = vstd::slice::slice_to_vec(a.as_slice());
    proof {
        assert(v@ =~= kw_msg_invalid());
    }
    v
}

/// The bytes of `"unknown directive: "`.
pub open spec fn kw_msg_unknown() -> Seq<u8> {
    seq![117u8, 110, 107, 110, 111, 119, 110, 32, 100, 105, 114, 101, 99, 116, 105, 118, 101, 58, 32]
}

/// Builds the bytes of `"unknown directive: "`.
pub fn kw_msg_unknown_v() -> (v: Vec<u8>)
    ensures
        v@ == kw_msg_unknown(),
{
    let a: [u8; 19] = [117, 110, 107, 110, 111, 119, 110, 32, 100, 105, 114, 101, 99, 116, 105, 118, 101, 58, 32];
    let v = vstd::slice::slice_to_vec(a.as_slice());
    proof {
        assert(v@ =~= kw_msg_unknown());
    }
    v
}

} // verus!
