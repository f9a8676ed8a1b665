//! The vocabulary that a language service and its host share: spans, diagnostics, semantic tokens,
//! symbols and completion items. Every position is a byte offset into the document.

use vstd::prelude::*;

verus! {

/// A half-open range `[start, end)` of byte offsets.
#[derive(Debug, Clone, Copy, PartialEq, Eq, Structural)]
pub struct ByteSpan {
    /// The offset of the first byte.
    pub start: usize,
    /// The offset just past the last byte.
    pub end: usize,
}

impl ByteSpan {
    /// The span from `start` up to `end`.
    pub fn new(start: usize, end: usize) -> (span: Self)
        ensures
            span == (ByteSpan { start, end }),
    {
        ByteSpan { start, end }
    }

    /// Whether the span covers no byte; one that ends before it starts covers none.
    pub open spec fn spec_is_empty(&self) -> bool {
        self.start >= self.end
    }

    /// The number of bytes that the span covers.
    pub open spec fn spec_len(&self) -> nat {
        if self.end >= self.start {
            (self.end - self.start) as nat
        } else {
            0
        }
    }

    /// Whether `offset` lies inside the span; the end itself does not.
    pub open spec fn holds(&self, offset: int) -> bool {
        self.start <= offset < self.end
    }

    /// The number of bytes that the span covers.
    pub fn len(&self) -> (n: usize)
        ensures
            n == self.spec_len(),
    {
        self.end.saturating_sub(self.start)
    }

    /// Whether the span covers no byte.
    pub fn is_empty(&self) -> (r: bool)
        ensures
            r == self.spec_is_empty(),
            r == (self.spec_len() == 0),
    {
        self.start >= self.end
    }

    /// Whether `offset` lies inside the span.
    pub fn contains(&self, offset: usize) -> (r: bool)
        ensures
            r == self.holds(offset as int),
    {
        self.start <= offset && offset < self.end
    }
}

/// How serious a diagnostic is.
#[derive(Debug, Clone, Copy, PartialEq, Eq, Structural)]
pub enum Severity {
    /// The document does not load, or the construct has no effect at all.
    Error,
    /// The document loads, but most likely not as meant.
    Warning,
    /// A remark.
    Hint,
}

/// One finding about a document.
#[derive(Debug, Clone, PartialEq, Eq)]
pub struct Diagnostic {
    /// How serious the finding is.
    pub severity: Severity,
    /// The stable identifier of the kind of finding.
    pub code: &'static str,
    /// What is wrong, for a reader.
    pub message: String,
    /// Where.
    pub span: ByteSpan,
}

/// The model of a [`Diagnostic`].
pub struct DiagnosticView {
    /// How serious the finding is.
    pub severity: Severity,
    /// The identifier of the kind of finding.
    pub code: Seq<char>,
    /// What is wrong.
    pub message: Seq<char>,
    /// Where.
    pub span: ByteSpan,
}

impl View for Diagnostic {
    type V = DiagnosticView;

    open spec fn view(&self) -> DiagnosticView {
        DiagnosticView {
            severity: self.severity,
            code: self.code@,
            message: self.message@,
            span: self.span,
        }
    }
}

/// What a piece of text is, for highlighting.
#[derive(Debug, Clone, Copy, PartialEq, Eq, Hash, Structural)]
pub enum SemanticTokenKind {
    /// A comment.
    Comment,
    /// The name of a widget or style.
    Type,
    /// A property key.
    Property,
    /// A text value.
    String,
    /// A number.
    Number,
    /// `true` or `false`.
    Boolean,
    /// A word out of a closed set of values.
    EnumMember,
    /// A variable.
    Variable,
    /// An operator.
    Operator,
    /// A word of the language.
    Keyword,
    /// A class that the engine provides.
    BuiltinType,
    /// The style that another one derives from.
    InheritedType,
    /// An event key.
    Event,
    /// A state name that the engine does not know.
    UnknownState,
}

impl SemanticTokenKind {
    /// Every kind, each at the position that its `index` names.
    pub const ALL: [SemanticTokenKind; 14] = [
        SemanticTokenKind::Comment,
        SemanticTokenKind::Type,
        SemanticTokenKind::Property,
        SemanticTokenKind::String,
        SemanticTokenKind::Number,
        SemanticTokenKind::Boolean,
        SemanticTokenKind::EnumMember,
        SemanticTokenKind::Variable,
        SemanticTokenKind::Operator,
        SemanticTokenKind::Keyword,
        SemanticTokenKind::BuiltinType,
        SemanticTokenKind::InheritedType,
        SemanticTokenKind::Event,
        SemanticTokenKind::UnknownState,
    ];

    /// The position of the kind in the legend.
    pub open spec fn spec_index(self) -> u32 {
        match self {
            SemanticTokenKind::Comment => 0,
            SemanticTokenKind::Type => 1,
            SemanticTokenKind::Property => 2,
            SemanticTokenKind::String => 3,
            SemanticTokenKind::Number => 4,
            SemanticTokenKind::Boolean => 5,
            SemanticTokenKind::EnumMember => 6,
            SemanticTokenKind::Variable => 7,
            SemanticTokenKind::Operator => 8,
            SemanticTokenKind::Keyword => 9,
            SemanticTokenKind::BuiltinType => 10,
            SemanticTokenKind::InheritedType => 11,
            SemanticTokenKind::Event => 12,
            SemanticTokenKind::UnknownState => 13,
        }
    }

    /// The position of the kind in [`SemanticTokenKind::ALL`].
    pub fn index(self) -> (i: u32)
        ensures
            i == self.spec_index(),
    {
        match self {
            SemanticTokenKind::Comment => 0,
            SemanticTokenKind::Type => 1,
            SemanticTokenKind::Property => 2,
            SemanticTokenKind::String => 3,
            SemanticTokenKind::Number => 4,
            SemanticTokenKind::Boolean => 5,
            SemanticTokenKind::EnumMember => 6,
            SemanticTokenKind::Variable => 7,
            SemanticTokenKind::Operator => 8,
            SemanticTokenKind::Keyword => 9,
            SemanticTokenKind::BuiltinType => 10,
            SemanticTokenKind::InheritedType => 11,
            SemanticTokenKind::Event => 12,
            SemanticTokenKind::UnknownState => 13,
        }
    }

    /// `ALL` lists every kind exactly once, at the position that its `index` names.
    pub proof fn law_all_lists_each_kind_at_its_index(kind: SemanticTokenKind, i: int)
        requires
            0 <= i < SemanticTokenKind::ALL@.len(),
        ensures
            (SemanticTokenKind::ALL@[i] == kind) == (i == kind.spec_index()),
    {
    }
}

/// A span with its kind.
#[derive(Debug, Clone, Copy, PartialEq, Eq, Structural)]
pub struct SemanticToken {
    /// Where.
    pub span: ByteSpan,
    /// What.
    pub kind: SemanticTokenKind,
}

/// What an outline entry stands for.
#[derive(Debug, Clone, Copy, PartialEq, Eq, Structural)]
pub enum SymbolKind {
    /// A widget or style without an id, shown under its tag or name.
    Object,
    /// A widget or style with an id, shown under that id.
    Field,
}

/// An outline entry and the entries under it.
#[derive(Debug, PartialEq, Eq)]
pub struct DocumentSymbol {
    /// The name shown.
    pub name: String,
    /// What is shown beside the name.
    pub detail: Option<String>,
    /// What the entry stands for.
    pub kind: SymbolKind,
    /// The whole construct.
    pub span: ByteSpan,
    /// The token that names it.
    pub selection_span: ByteSpan,
    /// The entries under it.
    pub children: Vec<DocumentSymbol>,
}

/// What a completion item stands for.
#[derive(Debug, Clone, Copy, PartialEq, Eq, Structural)]
pub enum CompletionKind {
    /// A word out of a closed set of values.
    EnumMember,
    /// A value.
    Value,
    /// An event key.
    Event,
    /// A word of the language.
    Keyword,
    /// A widget or style.
    Class,
}

/// How the text of a completion item is to be inserted.
#[derive(Debug, Clone, Copy, PartialEq, Eq, Structural)]
pub enum InsertFormat {
    /// As it stands.
    Plain,
    /// As a snippet with tab stops.
    Snippet,
}

impl Default for InsertFormat {
    fn default() -> (r: Self)
        ensures
            r == InsertFormat::Plain,
    {
        InsertFormat::Plain
    }
}

/// One thing that can be inserted at the cursor.
#[derive(Debug, Clone, PartialEq, Eq)]
pub struct CompletionItem {
    /// The text shown, and inserted where there is no `insert_text`.
    pub label: String,
    /// What the item stands for.
    pub kind: CompletionKind,
    /// What is shown beside the label.
    pub detail: Option<String>,
    /// The key by which the host orders the items, where it is not the label.
    pub sort_text: Option<String>,
    /// The text to insert, where it is not the label.
    pub insert_text: Option<String>,
    /// How that text is to be inserted.
    pub insert_format: InsertFormat,
    /// A longer description.
    pub documentation: Option<String>,
}

/// The text of an optional string.
pub open spec fn opt_text(s: Option<String>) -> Option<Seq<char>> {
    match s {
        Some(t) => Some(t@),
        None => None,
    }
}

/// The model of a [`CompletionItem`].
pub struct CompletionView {
    /// The text shown.
    pub label: Seq<char>,
    /// What the item stands for.
    pub kind: CompletionKind,
    /// What is shown beside the label.
    pub detail: Option<Seq<char>>,
    /// The key by which the host orders the items.
    pub sort_text: Option<Seq<char>>,
    /// The text to insert.
    pub insert_text: Option<Seq<char>>,
    /// How that text is to be inserted.
    pub insert_format: InsertFormat,
    /// A longer description.
    pub documentation: Option<Seq<char>>,
}

impl View for CompletionItem {
    type V = CompletionView;

    open spec fn view(&self) -> CompletionView {
        CompletionView {
            label: self.label@,
            kind: self.kind,
            detail: opt_text(self.detail),
            sort_text: opt_text(self.sort_text),
            insert_text: opt_text(self.insert_text),
            insert_format: self.insert_format,
            documentation: opt_text(self.documentation),
        }
    }
}

/// What a language offers to a host.
pub trait LanguageService {
    /// The name under which the host knows the language.
    fn language_id(&self) -> &'static str;

    /// The findings about a document.
    fn diagnostics(&self, source: &str) -> Vec<Diagnostic>;

    /// The highlighted spans of a document.
    fn semantic_tokens(&self, source: &str) -> Vec<SemanticToken>;

    /// The outline of a document.
    fn document_symbols(&self, source: &str) -> Vec<DocumentSymbol>;
}

/// The models of the items of a list.
pub open spec fn views<T: View>(items: Seq<T>) -> Seq<T::V> {
    items.map_values(|x: T| x@)
}

/// Appending an item appends its model.
pub broadcast proof fn lemma_views_push<T: View>(items: Seq<T>, x: T)
    ensures
        #[trigger] views(items.push(x)) == views(items).push(x@),
{
    assert(views(items.push(x)) =~= views(items).push(x@));
}

} // verus!
