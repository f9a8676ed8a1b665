//! Language tooling for OTUI, the indentation-based widget description language of OTClient.
//!
//! The crate reads documents and the Lua code beside them, and says what is in them: findings,
//! outlines, highlighting, completion, navigation, references, hover texts, formatting. It does no
//! I/O. Places are byte offsets.
//!
//! [`syntax`] reads a document into a list of statements, each with its parent. Every feature is a
//! module of its own, whose functions have as contract the value of a spec function of the bytes of
//! the document. What a workspace holds comes in through [`style_index`] and [`lua_widgets`].
//! [`OtuiService`] gathers the entry points.
//!
//! The modules whose names end in `_laws` say what these values are for: when a document has which
//! finding, which names are offered where, which lines a fold holds, which color a text stands for.
//! They speak of the text and of the workspace, in words of their own.

pub mod alias_hover;
pub mod ancestry_laws;
pub mod anchors;
pub mod ascii;
pub mod catalog;
pub mod color_laws;
pub mod colors;
pub mod completion;
pub mod completion_laws;
pub mod diagnostics;
pub mod diagnostics_laws;
pub mod doc_index;
pub mod fixes;
pub mod fixes_laws;
pub mod folding;
pub mod folding_laws;
pub mod format;
pub mod format_laws;
pub mod hierarchy;
pub mod hover;
pub mod id_hover;
pub mod ids;
pub mod indent;
pub mod indent_laws;
pub mod ink;
pub mod inlay;
pub mod lang_api;
pub mod lenses;
pub mod link_laws;
pub mod links;
pub mod lua_laws;
pub mod lua_load_laws;
pub mod lua_ref_laws;
pub mod lua_refs;
pub mod lua_ui_loads;
pub mod lua_widget_laws;
pub mod lua_widgets;
pub mod manifest;
pub mod manifest_laws;
pub mod names;
pub mod navigation;
pub mod navigation_laws;
pub mod nodes;
pub mod order;
pub mod outline_laws;
pub mod palette;
pub mod property_hover;
pub mod references;
pub mod schema;
pub mod semantic;
pub mod semantic_laws;
pub mod slots;
pub mod style_index;
pub mod symbols;
pub mod syntax;
pub mod syntax_laws;
pub mod text;
pub mod tree_laws;
pub mod widget_resolve;
pub mod wording;
pub mod workspace_laws;

use crate::completion::{complete_at, complete_at_with_widgets};
use crate::diagnostics::{
    analyze, analyze_with_widgets, analyze_with_widgets_from_tree, WidgetContext, Workspace,
};
use crate::fixes::Fix;
use crate::folding::FoldRange;
use crate::format::LineEdit;
use crate::hierarchy::StyleRef;
use crate::hover::StyleHover;
use crate::lang_api::{
    ByteSpan, CompletionItem, Diagnostic, DocumentSymbol, LanguageService, SemanticToken,
};
use crate::links::PathRef;
use crate::lua_refs::{LuaIdDef, LuaIdRef};
use crate::lua_widgets::{LuaWidgetDef, LuaWidgetIndex};
use crate::navigation::{BaseRef, IdRef, IdRefKind, StyleHeaderRef};
use crate::palette::Rgba;
use crate::property_hover::PropertyHover;
use crate::references::{IdOccurrences, StyleNameOccurrences};
use crate::style_index::{StyleDef, StyleIndex};
use crate::syntax::SyntaxTree;
use vstd::prelude::*;
use vstd::string::*;

verus! {

/// The entry points of the crate, for a host that keeps one value for each session.
#[derive(Debug)]
pub struct OtuiService {
    _private: (),
}

impl Default for OtuiService {
    fn default() -> Self {
        OtuiService { _private: () }
    }
}

impl OtuiService {
    /// A service.
    pub fn new() -> Self {
        OtuiService { _private: () }
    }

    /// The styles that a document declares at its top level.
    pub fn style_defs(&self, source: &str) -> (defs: Vec<StyleDef>)
        ensures
            style_index::are_defs(source.spec_bytes(), defs@),
    {
        match SyntaxTree::parse(source) {
            Some(tree) => style_index::extract_style_defs(&tree),
            None => Vec::new(),
        }
    }

    /// The widget classes that a Lua document declares.
    pub fn lua_widgets(&self, source: &str) -> (r: Vec<LuaWidgetDef>)
        ensures
            lua_widgets::lists(r@, lua_widgets::widgets(source.spec_bytes())),
    {
        lua_widgets::scan_widgets(source)
    }

    /// The places in a Lua document that name the id of a widget.
    pub fn lua_id_refs(&self, source: &str) -> (r: Vec<LuaIdRef>)
        ensures
            lang_api::views(r@) == lua_refs::id_refs(source.spec_bytes()),
    {
        lua_refs::scan_id_refs(source)
    }

    /// The places in a Lua document that give a widget its id.
    pub fn lua_id_defs(&self, source: &str) -> (r: Vec<LuaIdDef>)
        ensures
            lang_api::views(r@) == lua_refs::id_defs(source.spec_bytes()),
    {
        lua_refs::scan_id_defs(source)
    }

    /// The findings about a document in a workspace.
    pub fn diagnostics_with_widgets(
        &self,
        source: &str,
        styles: &StyleIndex,
        lua: &LuaWidgetIndex,
    ) -> (out: Vec<Diagnostic>)
        ensures
            lang_api::views(out@) == diagnostics::findings(
                source.spec_bytes(),
                Some(Workspace { styles: styles@, lua: lua@ }),
            ),
    {
        analyze_with_widgets(source, &WidgetContext { styles, lua })
    }

    /// The findings about a document in a workspace, and the paths that it names. The document is
    /// read once.
    pub fn diagnostics_with_widgets_and_links(
        &self,
        source: &str,
        styles: &StyleIndex,
        lua: &LuaWidgetIndex,
    ) -> (out: (Vec<Diagnostic>, Vec<PathRef>))
        ensures
            lang_api::views(out.0@) == diagnostics::findings(
                source.spec_bytes(),
                Some(Workspace { styles: styles@, lua: lua@ }),
            ),
            lang_api::views(out.1@) == links::paths(source.spec_bytes()),
    {
        match SyntaxTree::parse(source) {
            Some(tree) => (
                analyze_with_widgets_from_tree(&tree, &WidgetContext { styles, lua }),
                links::document_links_from_tree(source, &tree),
            ),
            None => (Vec::new(), Vec::new()),
        }
    }

    /// The base of a style header under `offset`.
    pub fn base_reference_at(&self, source: &str, offset: usize) -> (r: Option<BaseRef>)
        ensures
            ({
                let s = source.spec_bytes();
                match navigation::base_at(syntax::stmts(s), offset as int, 0) {
                    Some(k) => r matches Some(base) && Some(base.span) == syntax::stmts(s)[k].value
                        && base.name@ == navigation::token(s, base.span),
                    None => r is None,
                }
            }),
    {
        navigation::base_reference_at(source, offset)
    }

    /// The style header whose name or base is under `offset`.
    pub fn style_header_at(&self, source: &str, offset: usize) -> (r: Option<StyleHeaderRef>)
        ensures
            ({
                let s = source.spec_bytes();
                match navigation::header_at(syntax::stmts(s), offset as int, 0) {
                    Some(k) => r matches Some(header) && navigation::is_header(
                        s,
                        syntax::stmts(s)[k],
                        header,
                    ),
                    None => r is None,
                }
            }),
    {
        navigation::style_header_at(source, offset)
    }

    /// The id under `offset`: where it is given, or where an anchor names it.
    pub fn id_at(&self, source: &str, offset: usize) -> (r: Option<IdRef>)
        ensures
            ({
                let s = source.spec_bytes();
                match navigation::id_under(s, syntax::stmts(s), offset as int, 0) {
                    Some(p) => r matches Some(id) && id.span == p.0 && id.kind == p.1 && id.id@
                        == navigation::token(s, p.0),
                    None => r is None,
                }
            }),
    {
        navigation::id_at(source, offset)
    }

    /// Where a document declares the style `name` or derives from it.
    pub fn style_name_occurrences(&self, source: &str, name: &str) -> (r: StyleNameOccurrences)
        ensures
            ({
                let s = source.spec_bytes();
                let stmts = syntax::stmts(s);
                let n = stmts.len() as int;
                &&& r.declarations@ == references::declared_upto(s, stmts, name.spec_bytes(), n)
                &&& r.base_refs@ == references::derived_upto(s, stmts, name.spec_bytes(), n)
            }),
    {
        references::style_name_occurrences(source, name)
    }

    /// Where a document gives the id `id` and where its anchors name it.
    pub fn id_occurrences(&self, source: &str, id: &str) -> (r: IdOccurrences)
        ensures
            ({
                let s = source.spec_bytes();
                let stmts = syntax::stmts(s);
                let n = stmts.len() as int;
                let given = references::uses_upto(s, stmts, id.spec_bytes(), IdRefKind::Declaration, n);
                &&& r.declaration == if given.len() > 0 {
                    Some(given[0])
                } else {
                    None
                }
                &&& r.has_duplicate_declaration == (given.len() > 1)
                &&& r.anchor_refs@ == references::uses_upto(
                    s,
                    stmts,
                    id.spec_bytes(),
                    IdRefKind::AnchorTarget,
                    n,
                )
            }),
    {
        references::id_occurrences(source, id)
    }

    /// What is known of the style under `offset`. The Lua classes of the workspace play no part in
    /// it.
    pub fn style_hover_at(
        &self,
        source: &str,
        offset: usize,
        index: &StyleIndex,
        _lua: &LuaWidgetIndex,
    ) -> (r: Option<StyleHover>)
        ensures
            ({
                let s = source.spec_bytes();
                let stmts = syntax::stmts(s);
                match navigation::header_at(stmts, offset as int, 0) {
                    Some(k) => r matches Some(hover) && hover::is_style_hover(
                        s,
                        stmts[k],
                        index@,
                        offset as int,
                        hover,
                    ),
                    None => r is None,
                }
            }),
    {
        hover::style_hover_at(source, offset, index)
    }

    /// What is known of the property whose key is under `offset`.
    pub fn property_hover_at(
        &self,
        source: &str,
        offset: usize,
        styles: &StyleIndex,
        lua: &LuaWidgetIndex,
    ) -> (r: Option<PropertyHover>)
        ensures
            ({
                let s = source.spec_bytes();
                let stmts = syntax::stmts(s);
                let ws = Workspace { styles: styles@, lua: lua@ };
                match property_hover::property_at(stmts, offset as int, 0) {
                    Some(i) => match r {
                        Some(hover) => {
                            &&& property_hover::is_origin(s, stmts, ws, i, Some(hover.origin))
                            &&& hover.name@ == text::chars_of(nodes::key_of(s, stmts[i]))
                            &&& hover.span == stmts[i].key
                            &&& lang_api::opt_text(hover.documentation)
                                == property_hover::documentation(nodes::key_of(s, stmts[i]))
                        },
                        None => property_hover::is_origin(s, stmts, ws, i, None),
                    },
                    None => r is None,
                }
            }),
    {
        property_hover::property_hover_at(source, offset, styles, lua)
    }

    /// The style that the widget or style header under `offset` names.
    pub fn style_type_at(&self, source: &str, offset: usize) -> (r: Option<StyleRef>)
        ensures
            match hierarchy::style_token(syntax::stmts(source.spec_bytes()), offset as int) {
                Some(span) => r matches Some(style) && style.span == span && style.name@
                    == navigation::token(source.spec_bytes(), span),
                None => r is None,
            },
    {
        hierarchy::style_type_at(source, offset)
    }

    /// What can be typed at `offset`.
    pub fn complete_at(&self, source: &str, offset: usize) -> (items: Vec<CompletionItem>)
        ensures
            lang_api::views(items@) == completion::completions(
                source.spec_bytes(),
                offset as int,
                (Workspace { styles: Seq::empty(), lua: Seq::empty() }),
            ),
    {
        complete_at(source, offset)
    }

    /// What can be typed at `offset` in a workspace.
    pub fn complete_with_widgets(
        &self,
        source: &str,
        offset: usize,
        styles: &StyleIndex,
        lua: &LuaWidgetIndex,
    ) -> (items: Vec<CompletionItem>)
        ensures
            lang_api::views(items@) == completion::completions(
                source.spec_bytes(),
                offset as int,
                (Workspace { styles: styles@, lua: lua@ }),
            ),
    {
        complete_at_with_widgets(source, offset, styles, lua)
    }

    /// The corrections for the findings in `range`.
    pub fn quick_fixes(&self, source: &str, range: ByteSpan) -> (out: Vec<Fix>)
        ensures
            lang_api::views(out@) == fixes::fixes_upto(
                source.spec_bytes(),
                diagnostics::findings(source.spec_bytes(), None),
                range,
                diagnostics::findings(source.spec_bytes(), None).len() as int,
            ),
    {
        fixes::quick_fixes(source, range)
    }

    /// The corrections for the indentation in `range`, for a document of any kind.
    pub fn quick_fixes_structural(&self, source: &str, range: ByteSpan) -> (out: Vec<Fix>)
        ensures
            lang_api::views(out@) == fixes::structural_upto(
                source.spec_bytes(),
                fixes::structural_places(source.spec_bytes()),
                range,
                fixes::structural_places(source.spec_bytes()).len() as int,
            ),
    {
        fixes::structural_quick_fixes(source, range)
    }

    /// The document in canonical layout, unless a line of it fits no kind or a block scalar would not
    /// keep its lines.
    pub fn format(&self, source: &str) -> (r: Option<String>)
        ensures
            match r {
                Some(t) => crate::format::can_format(source.spec_bytes()) && text::bytes_of(t@)
                    == crate::format::formatted(source.spec_bytes()),
                None => !crate::format::can_format(source.spec_bytes()),
            },
    {
        crate::format::format(source)
    }

    /// The changes that canonical layout makes to the lines from `start_line` to `end_line`.
    pub fn format_line_edits(
        &self,
        source: &str,
        start_line: u32,
        end_line: u32,
    ) -> (r: Option<Vec<LineEdit>>)
        ensures
            match r {
                Some(edits) => {
                    &&& crate::format::can_format(source.spec_bytes())
                    &&& crate::format::are_edits(
                        edits@,
                        crate::format::edits_between(
                            source.spec_bytes(),
                            start_line as int,
                            if end_line < indent::lines(source.spec_bytes()).len() {
                                end_line + 1
                            } else {
                                indent::lines(source.spec_bytes()).len() as int
                            },
                        ),
                    )
                },
                None => !crate::format::can_format(source.spec_bytes()),
            },
    {
        crate::format::format_line_edits(source, start_line, end_line)
    }

    /// How many spaces a line is to start with.
    pub fn indent_for_line(&self, source: &str, line: u32) -> (r: Option<usize>)
        requires
            source.spec_bytes().len() + 2 <= usize::MAX,
        ensures
            match r {
                Some(n) => indent::line_indent(source.spec_bytes(), line as int) == Some(n as int),
                None => indent::line_indent(source.spec_bytes(), line as int) is None,
            },
    {
        indent::indent_for_line(source, line)
    }

    /// The lines that fold away.
    pub fn folding_ranges(&self, source: &str) -> (out: Vec<FoldRange>)
        ensures
            out@ == folding::folds(syntax::stmts(source.spec_bytes())),
    {
        folding::folding_ranges(source)
    }

    /// The colors that a document names.
    pub fn document_colors(&self, source: &str) -> (out: Vec<(ByteSpan, Rgba)>)
        ensures
            out@ == colors::colors_upto(
                source.spec_bytes(),
                syntax::stmts(source.spec_bytes()),
                syntax::stmts(source.spec_bytes()).len() as int,
            ),
    {
        colors::document_colors(source)
    }

    /// The paths that a document names.
    pub fn document_links(&self, source: &str) -> (out: Vec<PathRef>)
        ensures
            lang_api::views(out@) == links::paths(source.spec_bytes()),
    {
        links::document_links(source)
    }

    /// The path under `offset`.
    pub fn asset_ref_at(&self, source: &str, offset: usize) -> (r: Option<PathRef>)
        ensures
            match r {
                Some(p) => links::path_under(
                    source.spec_bytes(),
                    syntax::stmts(source.spec_bytes()),
                    offset as int,
                    0,
                ) == Some(p@),
                None => links::path_under(
                    source.spec_bytes(),
                    syntax::stmts(source.spec_bytes()),
                    offset as int,
                    0,
                ) is None,
            },
    {
        links::asset_ref_at(source, offset)
    }
}

impl LanguageService for OtuiService {
    fn language_id(&self) -> (r: &'static str)
        ensures
            r@ == "otui"@,
    {
        "otui"
    }

    fn diagnostics(&self, source: &str) -> (out: Vec<Diagnostic>)
        ensures
            lang_api::views(out@) == diagnostics::findings(source.spec_bytes(), None),
    {
        analyze(source)
    }

    fn semantic_tokens(&self, source: &str) -> (out: Vec<SemanticToken>)
        ensures
            out@ == semantic::pieces(source.spec_bytes()),
            semantic::in_order(out@, 0, source.spec_bytes().len() as int),
    {
        semantic::tokens(source)
    }

    fn document_symbols(&self, source: &str) -> (out: Vec<DocumentSymbol>)
        ensures
            symbols::are_symbols(
                source.spec_bytes(),
                syntax::stmts(source.spec_bytes()),
                symbols::widgets_below(
                    syntax::stmts(source.spec_bytes()),
                    None,
                    syntax::stmts(source.spec_bytes()).len() as int,
                ),
                out@,
            ),
    {
        symbols::document_symbols(source)
    }
}

} // verus!
