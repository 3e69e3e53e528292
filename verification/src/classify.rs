//! Change classification: mapping a changed filesystem path to the kinds of
//! file it is, by path-prefix and suffix rules relative to the content root.
//! The rebuild scheduler reacts to each kind independently.

use vstd::prelude::*;
use crate::strutil::{
    spec_ends_with, spec_starts_with, spec_strip_prefix, spec_strip_suffix, split_char,
    split_chars, str_ends_with, str_eq, str_starts_with, strip_prefix_str, strip_suffix_str,
    views_of,
};

verus! {

/// Process-wide configuration: the content root and the UTC offset used by
/// date helpers.  Read-only after resolution.
#[derive(Debug, Clone)]
pub struct Config {
    pub dir: String,
    pub utc_offset: i32,
}

/// A changed path relative to the content root.
pub open spec fn rel_path(dir: Seq<char>, path: Seq<char>) -> Seq<char> {
    spec_strip_prefix(path, dir)
}

/// A template file: any recognized template suffix outside the output and
/// dependency directories.  Includes layouts and partials.
pub open spec fn is_handlebars_spec(dir: Seq<char>, path: Seq<char>) -> bool {
    let rel = rel_path(dir, path);
    &&& !spec_starts_with(rel, "/public"@)
    &&& !spec_starts_with(rel, "/node_modules"@)
    &&& (spec_ends_with(path, ".hbs"@) || spec_ends_with(path, ".handlebars"@))
}

/// A page template: a template file outside the layout and partial
/// directories.
pub open spec fn is_handlebars_page_spec(dir: Seq<char>, path: Seq<char>) -> bool {
    let rel = rel_path(dir, path);
    &&& !spec_starts_with(rel, "/_layouts"@)
    &&& !spec_starts_with(rel, "/_partials"@)
    &&& !spec_starts_with(rel, "/public"@)
    &&& !spec_starts_with(rel, "/node_modules"@)
    &&& (spec_ends_with(path, ".hbs"@) || spec_ends_with(path, ".handlebars"@))
}

/// A content file: a Markdown suffix outside the reserved directories.
pub open spec fn is_markdown_spec(dir: Seq<char>, path: Seq<char>) -> bool {
    let rel = rel_path(dir, path);
    &&& !spec_starts_with(rel, "/_layouts"@)
    &&& !spec_starts_with(rel, "/_partials"@)
    &&& !spec_starts_with(rel, "/public"@)
    &&& !spec_starts_with(rel, "/node_modules"@)
    &&& (spec_ends_with(path, ".md"@) || spec_ends_with(path, ".markdown"@))
}

/// A data file: the manifest or the site metadata file, by exact relative
/// path.
pub open spec fn is_data_spec(dir: Seq<char>, path: Seq<char>) -> bool {
    rel_path(dir, path) == "/site.json"@ || rel_path(dir, path) == "/content.json"@
}

/// An asset: anything that matches none of the other kinds and is not under
/// a reserved or hidden prefix.
pub open spec fn is_asset_spec(dir: Seq<char>, path: Seq<char>) -> bool {
    let rel = rel_path(dir, path);
    &&& !spec_ends_with(path, ".hbs"@)
    &&& !spec_ends_with(path, ".handlebars"@)
    &&& !spec_ends_with(path, ".md"@)
    &&& !spec_ends_with(path, ".markdown"@)
    &&& rel != "/site.json"@
    &&& rel != "/content.json"@
    &&& !spec_starts_with(rel, "/_layouts"@)
    &&& !spec_starts_with(rel, "/_partials"@)
    &&& !spec_starts_with(rel, "/public"@)
    &&& !spec_starts_with(rel, "/node_modules"@)
    &&& !spec_starts_with(rel, "/."@)
}

pub fn is_handlebars_file(dir: &str, path: &str) -> (r: bool)
    ensures
        r == is_handlebars_spec(dir@, path@),
{
    let rel = strip_prefix_str(path, dir);
    !str_starts_with(rel.as_str(), "/public") && !str_starts_with(rel.as_str(), "/node_modules")
        && (str_ends_with(path, ".hbs") || str_ends_with(path, ".handlebars"))
}

pub fn is_handlebars_page_file(dir: &str, path: &str) -> (r: bool)
    ensures
        r == is_handlebars_page_spec(dir@, path@),
{
    let rel = strip_prefix_str(path, dir);
    !str_starts_with(rel.as_str(), "/_layouts") && !str_starts_with(rel.as_str(), "/_partials")
        && !str_starts_with(rel.as_str(), "/public") && !str_starts_with(
        rel.as_str(),
        "/node_modules",
    ) && (str_ends_with(path, ".hbs") || str_ends_with(path, ".handlebars"))
}

pub fn is_markdown_file(dir: &str, path: &str) -> (r: bool)
    ensures
        r == is_markdown_spec(dir@, path@),
{
    let rel = strip_prefix_str(path, dir);
    !str_starts_with(rel.as_str(), "/_layouts") && !str_starts_with(rel.as_str(), "/_partials")
        && !str_starts_with(rel.as_str(), "/public") && !str_starts_with(
        rel.as_str(),
        "/node_modules",
    ) && (str_ends_with(path, ".md") || str_ends_with(path, ".markdown"))
}

pub fn is_data_file(dir: &str, path: &str) -> (r: bool)
    ensures
        r == is_data_spec(dir@, path@),
{
    let rel = strip_prefix_str(path, dir);
    str_eq(rel.as_str(), "/site.json") || str_eq(rel.as_str(), "/content.json")
}

pub fn is_asset_file(dir: &str, path: &str) -> (r: bool)
    ensures
        r == is_asset_spec(dir@, path@),
{
    let rel = strip_prefix_str(path, dir);
    !str_ends_with(path, ".hbs") && !str_ends_with(path, ".handlebars") && !str_ends_with(
        path,
        ".md",
    ) && !str_ends_with(path, ".markdown") && !str_eq(rel.as_str(), "/site.json") && !str_eq(
        rel.as_str(),
        "/content.json",
    ) && !str_starts_with(rel.as_str(), "/_layouts") && !str_starts_with(
        rel.as_str(),
        "/_partials",
    ) && !str_starts_with(rel.as_str(), "/public") && !str_starts_with(
        rel.as_str(),
        "/node_modules",
    ) && !str_starts_with(rel.as_str(), "/.")
}

/// The kinds a changed path belongs to.  The predicates are evaluated
/// independently; a path may match more than one only by construction error.
#[derive(Debug, Clone, Copy, PartialEq, Eq, Structural)]
pub struct ChangeClass {
    pub data: bool,
    pub layout_template: bool,
    pub page_template: bool,
    pub content: bool,
    pub asset: bool,
}

pub fn classify_change(dir: &str, path: &str) -> (r: ChangeClass)
    ensures
        r.data == is_data_spec(dir@, path@),
        r.layout_template == is_handlebars_spec(dir@, path@),
        r.page_template == is_handlebars_page_spec(dir@, path@),
        r.content == is_markdown_spec(dir@, path@),
        r.asset == is_asset_spec(dir@, path@),
{
    ChangeClass {
        data: is_data_file(dir, path),
        layout_template: is_handlebars_file(dir, path),
        page_template: is_handlebars_page_file(dir, path),
        content: is_markdown_file(dir, path),
        asset: is_asset_file(dir, path),
    }
}

/// What a rebuild wave must do in reaction to one classified change: a data
/// or template change forces a full recompilation, an asset change a full
/// asset resync, a content change a recompilation of all content and page
/// templates, and a page-template change a recompilation of page templates
/// only.
#[derive(Debug, Clone, Copy, PartialEq, Eq, Structural)]
pub struct RebuildPlan {
    pub full_compile: bool,
    pub asset_resync: bool,
    pub content_recompile: bool,
    pub template_recompile: bool,
}

pub fn reaction_plan(c: &ChangeClass) -> (r: RebuildPlan)
    ensures
        r.full_compile == (c.data || c.layout_template),
        r.asset_resync == c.asset,
        r.content_recompile == c.content,
        r.template_recompile == c.page_template,
{
    RebuildPlan {
        full_compile: c.data || c.layout_template,
        asset_resync: c.asset,
        content_recompile: c.content,
        template_recompile: c.page_template,
    }
}

// ---------------------------------------------------------------------------
// File filtering and partial discovery
// ---------------------------------------------------------------------------

/// The file kinds the build scans for.
#[derive(Debug, Clone, Copy, PartialEq, Eq, Hash)]
pub enum FileType {
    Handlebars,
    HandlebarsPages,
    Markdown,
    Asset,
}

pub open spec fn file_type_matches(dir: Seq<char>, path: Seq<char>, ft: FileType) -> bool {
    match ft {
        FileType::Handlebars => is_handlebars_spec(dir, path),
        FileType::HandlebarsPages => is_handlebars_page_spec(dir, path),
        FileType::Markdown => is_markdown_spec(dir, path),
        FileType::Asset => is_asset_spec(dir, path),
    }
}

pub fn matches_file_type(dir: &str, path: &str, ft: &FileType) -> (r: bool)
    ensures
        r == file_type_matches(dir@, path@, *ft),
{
    match ft {
        FileType::Handlebars => is_handlebars_file(dir, path),
        FileType::HandlebarsPages => is_handlebars_page_file(dir, path),
        FileType::Markdown => is_markdown_file(dir, path),
        FileType::Asset => is_asset_file(dir, path),
    }
}

/// Keeps the paths of one file kind, in their original order.  The
/// surrounding build enumerates a directory tree and filters the result
/// here.
pub fn filter_files(dir: &str, paths: Vec<String>, ft: &FileType) -> (r: Vec<String>)
    ensures
        r@ == paths@.filter(
            |p: String| file_type_matches(dir@, p@, *ft),
        ),
{
    let ghost pred = |p: String| file_type_matches(dir@, p@, *ft);
    let mut paths = paths;
    let ghost all = paths@;
    let mut out: Vec<String> = Vec::new();
    proof {
        reveal(Seq::filter);
        assert(all.subrange(0, 0) =~= Seq::<String>::empty());
        assert(out@ =~= all.subrange(0, 0).filter(pred));
    }
    while paths.len() > 0
        invariant
            paths@.len() <= all.len(),
            paths@ == all.subrange(all.len() - paths@.len(), all.len() as int),
            out@ == all.subrange(0, all.len() - paths@.len()).filter(pred),
            pred == (|p: String| file_type_matches(dir@, p@, *ft)),
        decreases paths@.len(),
    {
        let ghost i = all.len() - paths@.len();
        let ghost done = all.subrange(0, i);
        let p = paths.remove(0);
        proof {
            assert(p == all[i]);
            assert(paths@ =~= all.subrange(all.len() - paths@.len(), all.len() as int));
        }
        let keep = matches_file_type(dir, p.as_str(), ft);
        let ghost done2 = all.subrange(0, i + 1);
        proof {
            reveal(Seq::filter);
            assert(done2.drop_last() =~= done);
            assert(done2.last() == p);
            assert(done2.filter(pred) == if pred(p) {
                done.filter(pred).push(p)
            } else {
                done.filter(pred)
            });
        }
        if keep {
            out.push(p);
        }
    }
    proof {
        assert(all.subrange(0, all.len() as int) =~= all);
    }
    out
}

/// One named partial template, consumable by the rendering layer.
#[derive(Debug, Clone)]
pub struct TemplatePartial {
    pub name: String,
    pub path: String,
}

/// The name a partial is registered under: the last path segment with the
/// template suffix stripped.
pub open spec fn partial_name_spec(path: Seq<char>) -> Seq<char> {
    let segs = split_chars(path, '/');
    spec_strip_suffix(segs[segs.len() - 1], ".hbs"@)
}

/// Turns the paths of the partial-template directory into consumable named
/// partials.
pub fn find_partials(paths: Vec<String>) -> (r: Vec<TemplatePartial>)
    ensures
        r@.len() == paths@.len(),
        forall|i: int|
            0 <= i < paths@.len() ==> (#[trigger] r@[i]).name@ == partial_name_spec(paths@[i]@)
                && r@[i].path == paths@[i],
{
    let mut paths = paths;
    let ghost all = paths@;
    let mut out: Vec<TemplatePartial> = Vec::new();
    while paths.len() > 0
        invariant
            paths@.len() <= all.len(),
            paths@ == all.subrange(all.len() - paths@.len(), all.len() as int),
            out@.len() == all.len() - paths@.len(),
            forall|i: int|
                0 <= i < out@.len() ==> (#[trigger] out@[i]).name@ == partial_name_spec(all[i]@)
                    && out@[i].path == all[i],
        decreases paths@.len(),
    {
        let ghost i = all.len() - paths@.len();
        let p = paths.remove(0);
        proof {
            assert(p == all[i]);
            assert(paths@ =~= all.subrange(all.len() - paths@.len(), all.len() as int));
        }
        let segs = split_char(p.as_str(), '/');
        let last = &segs[segs.len() - 1];
        proof {
            assert(views_of(segs@)[segs@.len() - 1] == segs@[segs@.len() - 1]@);
        }
        let name = strip_suffix_str(last.as_str(), ".hbs");
        out.push(TemplatePartial { name, path: p });
    }
    out
}

} // verus!
