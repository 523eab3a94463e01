//! Finding the definitions that a source file declares, from the syntax tree
//! that Tree-sitter builds for it.
//!
//! Each definition becomes a symbol with its kind, its name, the name
//! qualified by its namespace and every enclosing definition, and its
//! position. Namespaces (C# only) are symbols too, named by their full
//! dotted name; a file-scoped namespace applies to the declarations that
//! follow it.
use vstd::prelude::*;
use vstd::utf8::{decode_utf8, valid_utf8};
use vstd::slice::slice_subrange;
use crate::config::SupportedLanguage;
use crate::path::{extension, extension_of};
use crate::text::{
    append_chars, append_str, chars_equal, chars_of, copy_chars, has_prefix, has_suffix,
    lemma_trim_shape, starts_with, string_from_chars, trim, trimmed, unicode_white_space, utf8_text,
};
use crate::{string_opt, Symbol, SymbolView};

verus! {

#[verifier::external_type_specification]
#[verifier::external_body]
pub struct ExNode<'tree>(tree_sitter::Node<'tree>);

/// The Tree-sitter grammars that source files are parsed with.
#[derive(Debug, Clone, Copy, PartialEq, Eq, Structural)]
pub enum Grammar {
    Rust,
    JavaScript,
    TypeScript,
    /// TypeScript with JSX, for `.tsx` files.
    Tsx,
    CSharp,
}

/// A node of a syntax tree, holding what symbol extraction reads of it.
#[derive(Debug)]
pub struct SyntaxNode {
    /// The grammar's name for the node.
    pub kind: String,
    /// Where the node starts and ends, as zero-based rows and columns.
    pub start_row: usize,
    pub start_column: usize,
    pub end_row: usize,
    pub end_column: usize,
    /// The byte range of the node's `name` field, if it has one.
    pub name: Option<(usize, usize)>,
    /// The kind of the node's `value` field, if it has one.
    pub value_kind: Option<String>,
    pub children: Vec<SyntaxNode>,
}

/// Why Tree-sitter gave no syntax tree.
#[derive(Debug, Clone, Copy, PartialEq, Eq, Structural)]
pub enum ParseFailure {
    /// The parser refused the grammar.
    IncompatibleGrammar,
    /// The parser returned no tree.
    NoTree,
}

impl ParseFailure {
    /// The message shown to the user.
    pub fn message(&self) -> (m: String)
        ensures
            m@ == match self {
                ParseFailure::IncompatibleGrammar => "Tree-sitter cannot use the grammar of this language"@,
                ParseFailure::NoTree => "Tree-sitter did not produce a syntax tree"@,
            },
    {
        match self {
            ParseFailure::IncompatibleGrammar => String::from_str(
                "Tree-sitter cannot use the grammar of this language",
            ),
            ParseFailure::NoTree => String::from_str("Tree-sitter did not produce a syntax tree"),
        }
    }
}

/// The syntax tree that Tree-sitter builds for `source` with `grammar`, or
/// why it builds none.
pub uninterp spec fn syntax_tree(grammar: Grammar, source: Seq<u8>) -> Result<SyntaxNode, ParseFailure>;

/// Copies a Tree-sitter node and its descendants into plain values. It has
/// no contract of its own: it is the conversion inside `parse_syntax`, whose
/// contract names the whole result.
#[verifier::external_body]
fn syntax_node(node: tree_sitter::Node<'_>) -> SyntaxNode {
    let field = |name: &str| node.child_by_field_name(name);
    let (start, end) = (node.start_position(), node.end_position());
    SyntaxNode {
        kind: node.kind().to_string(),
        start_row: start.row,
        start_column: start.column,
        end_row: end.row,
        end_column: end.column,
        name: field("name").map(|name| (name.start_byte(), name.end_byte())),
        value_kind: field("value").map(|value| value.kind().to_string()),
        children: node.children(&mut node.walk()).map(syntax_node).collect(),
    }
}

/// `tree_sitter::Parser::set_language` with `grammar`, then
/// `Parser::parse` of `source`: the syntax tree as plain values, named
/// `syntax_tree`. Tree-sitter computes a node's end point as its start point
/// plus the node's extent, so no node ends on a row before it starts (its
/// rows are 32-bit counts, which a source shorter than 2^32 bytes cannot
/// overflow). Nothing else is stated of the tree.
#[verifier::external_body]
fn parse_syntax(grammar: Grammar, source: &[u8]) -> (tree: Result<SyntaxNode, ParseFailure>)
    ensures
        tree == syntax_tree(grammar, source@),
        tree is Ok && source@.len() < 0x1_0000_0000 ==> rows_ordered(tree->Ok_0),
{
    let language: tree_sitter::Language = match grammar {
        Grammar::Rust => tree_sitter_rust::LANGUAGE.into(),
        Grammar::JavaScript => tree_sitter_javascript::LANGUAGE.into(),
        Grammar::TypeScript => tree_sitter_typescript::LANGUAGE_TYPESCRIPT.into(),
        Grammar::Tsx => tree_sitter_typescript::LANGUAGE_TSX.into(),
        Grammar::CSharp => tree_sitter_c_sharp::LANGUAGE.into(),
    };
    let mut parser = tree_sitter::Parser::new();
    if parser.set_language(&language).is_err() {
        return Err(ParseFailure::IncompatibleGrammar);
    }
    match parser.parse(source, None) {
        Some(tree) => Ok(syntax_node(tree.root_node())),
        None => Err(ParseFailure::NoTree),
    }
}

/// The grammar for a language, and for TypeScript the file's extension:
/// `.tsx` files are parsed with JSX.
pub open spec fn grammar_of(language: SupportedLanguage, path: Option<Seq<char>>) -> Grammar {
    match language {
        SupportedLanguage::Rust => Grammar::Rust,
        SupportedLanguage::JavaScript => Grammar::JavaScript,
        SupportedLanguage::TypeScript => if path matches Some(p) && extension(p) == Some("tsx"@) {
            Grammar::Tsx
        } else {
            Grammar::TypeScript
        },
        SupportedLanguage::CSharp => Grammar::CSharp,
    }
}

pub fn grammar_for(language: SupportedLanguage, path: Option<&str>) -> (grammar: Grammar)
    ensures
        grammar == grammar_of(language, crate::config::opt_view(path)),
{
    match language {
        SupportedLanguage::Rust => Grammar::Rust,
        SupportedLanguage::JavaScript => Grammar::JavaScript,
        SupportedLanguage::TypeScript => {
            let tsx = match path {
                Some(p) => match extension_of(&chars_of(p)) {
                    Some(e) => chars_equal(&e, "tsx"),
                    None => false,
                },
                None => false,
            };
            if tsx {
                Grammar::Tsx
            } else {
                Grammar::TypeScript
            }
        },
        SupportedLanguage::CSharp => Grammar::CSharp,
    }
}

// ---------------------------------------------------------------------------
// Which nodes are definitions.
// ---------------------------------------------------------------------------

/// The names that definitions' kinds are reported by.
#[derive(Debug, Clone, Copy, PartialEq, Eq, Structural)]
pub enum KindNames {
    /// The index's kinds: C# records and structs are classes, and C#
    /// namespaces are definitions too.
    Normalized,
    /// The grammars' own declaration kinds, without namespaces.
    Declared,
}

/// Whether a variable's value is a function, so that the variable is a
/// function definition.
pub open spec fn is_function_value(value_kind: Option<Seq<char>>) -> bool {
    value_kind == Some("arrow_function"@) || value_kind == Some("function_expression"@)
}

pub open spec fn rust_kind(kind: Seq<char>) -> Option<Seq<char>> {
    if kind == "struct_item"@ {
        Some("struct"@)
    } else if kind == "enum_item"@ {
        Some("enum"@)
    } else if kind == "union_item"@ {
        Some("union"@)
    } else if kind == "trait_item"@ {
        Some("trait"@)
    } else if kind == "type_item"@ {
        Some("type"@)
    } else if kind == "function_item"@ || kind == "function_signature_item"@ {
        Some("function"@)
    } else if kind == "const_item"@ {
        Some("constant"@)
    } else if kind == "static_item"@ {
        Some("static"@)
    } else {
        None
    }
}

pub open spec fn javascript_kind(kind: Seq<char>, value_kind: Option<Seq<char>>) -> Option<Seq<char>> {
    if kind == "class_declaration"@ {
        Some("class"@)
    } else if kind == "function_declaration"@ || kind == "generator_function_declaration"@ {
        Some("function"@)
    } else if kind == "method_definition"@ {
        Some("method"@)
    } else if kind == "variable_declarator"@ && is_function_value(value_kind) {
        Some("function"@)
    } else {
        None
    }
}

/// TypeScript's definitions; function signatures are definitions only
/// among the normalized kinds.
pub open spec fn typescript_kind(names: KindNames, kind: Seq<char>, value_kind: Option<Seq<char>>) -> Option<Seq<char>> {
    if kind == "class_declaration"@ || kind == "abstract_class_declaration"@ {
        Some("class"@)
    } else if kind == "interface_declaration"@ {
        Some("interface"@)
    } else if kind == "type_alias_declaration"@ {
        Some("type"@)
    } else if kind == "enum_declaration"@ {
        Some("enum"@)
    } else if kind == "function_declaration"@ || kind == "generator_function_declaration"@ || (
    names == KindNames::Normalized && kind == "function_signature"@) {
        Some("function"@)
    } else if kind == "method_definition"@ || kind == "method_signature"@ || kind
        == "abstract_method_signature"@ {
        Some("method"@)
    } else if kind == "variable_declarator"@ && is_function_value(value_kind) {
        Some("function"@)
    } else {
        None
    }
}

pub open spec fn csharp_kind(names: KindNames, kind: Seq<char>) -> Option<Seq<char>> {
    if names == KindNames::Normalized && (kind == "namespace_declaration"@ || kind
        == "file_scoped_namespace_declaration"@) {
        Some("namespace"@)
    } else if kind == "class_declaration"@ {
        Some("class"@)
    } else if kind == "record_declaration"@ {
        if names == KindNames::Normalized {
            Some("class"@)
        } else {
            Some("record"@)
        }
    } else if kind == "struct_declaration"@ {
        if names == KindNames::Normalized {
            Some("class"@)
        } else {
            Some("struct"@)
        }
    } else if kind == "interface_declaration"@ {
        Some("interface"@)
    } else if kind == "enum_declaration"@ {
        Some("enum"@)
    } else if kind == "delegate_declaration"@ {
        Some("delegate"@)
    } else if kind == "method_declaration"@ {
        Some("method"@)
    } else if kind == "constructor_declaration"@ {
        Some("constructor"@)
    } else if kind == "property_declaration"@ {
        Some("property"@)
    } else {
        None
    }
}

/// The kind of definition a node of a language's syntax tree is, if it is
/// one.
pub open spec fn definition_kind(
    names: KindNames,
    language: SupportedLanguage,
    kind: Seq<char>,
    value_kind: Option<Seq<char>>,
) -> Option<Seq<char>> {
    match language {
        SupportedLanguage::Rust => rust_kind(kind),
        SupportedLanguage::JavaScript => javascript_kind(kind, value_kind),
        SupportedLanguage::TypeScript => typescript_kind(names, kind, value_kind),
        SupportedLanguage::CSharp => csharp_kind(names, kind),
    }
}

fn is_function_value_of(value_kind: &Option<String>) -> (b: bool)
    ensures
        b == is_function_value(string_opt(*value_kind)),
{
    match value_kind {
        Some(v) => {
            let v = chars_of(v.as_str());
            chars_equal(&v, "arrow_function") || chars_equal(&v, "function_expression")
        },
        None => false,
    }
}

fn rust_kind_of(k: &[char]) -> (r: Option<&'static str>)
    ensures
        crate::config::opt_view(r) == rust_kind(k@),
{
    if chars_equal(k, "struct_item") {
        Some("struct")
    } else if chars_equal(k, "enum_item") {
        Some("enum")
    } else if chars_equal(k, "union_item") {
        Some("union")
    } else if chars_equal(k, "trait_item") {
        Some("trait")
    } else if chars_equal(k, "type_item") {
        Some("type")
    } else if chars_equal(k, "function_item") || chars_equal(k, "function_signature_item") {
        Some("function")
    } else if chars_equal(k, "const_item") {
        Some("constant")
    } else if chars_equal(k, "static_item") {
        Some("static")
    } else {
        None
    }
}

fn javascript_kind_of(k: &[char], value_kind: &Option<String>) -> (r: Option<&'static str>)
    ensures
        crate::config::opt_view(r) == javascript_kind(k@, string_opt(*value_kind)),
{
    if chars_equal(k, "class_declaration") {
        Some("class")
    } else if chars_equal(k, "function_declaration") || chars_equal(k, "generator_function_declaration") {
        Some("function")
    } else if chars_equal(k, "method_definition") {
        Some("method")
    } else if chars_equal(k, "variable_declarator") && is_function_value_of(value_kind) {
        Some("function")
    } else {
        None
    }
}

fn typescript_kind_of(names: KindNames, k: &[char], value_kind: &Option<String>) -> (r: Option<&'static str>)
    ensures
        crate::config::opt_view(r) == typescript_kind(names, k@, string_opt(*value_kind)),
{
    if chars_equal(k, "class_declaration") || chars_equal(k, "abstract_class_declaration") {
        Some("class")
    } else if chars_equal(k, "interface_declaration") {
        Some("interface")
    } else if chars_equal(k, "type_alias_declaration") {
        Some("type")
    } else if chars_equal(k, "enum_declaration") {
        Some("enum")
    } else if chars_equal(k, "function_declaration") || chars_equal(k, "generator_function_declaration")
        || (names == KindNames::Normalized && chars_equal(k, "function_signature")) {
        Some("function")
    } else if chars_equal(k, "method_definition") || chars_equal(k, "method_signature") || chars_equal(
        k,
        "abstract_method_signature",
    ) {
        Some("method")
    } else if chars_equal(k, "variable_declarator") && is_function_value_of(value_kind) {
        Some("function")
    } else {
        None
    }
}

fn csharp_kind_of(names: KindNames, k: &[char]) -> (r: Option<&'static str>)
    ensures
        crate::config::opt_view(r) == csharp_kind(names, k@),
{
    let normalized = names == KindNames::Normalized;
    if normalized && (chars_equal(k, "namespace_declaration") || chars_equal(k, "file_scoped_namespace_declaration")) {
        Some("namespace")
    } else if chars_equal(k, "class_declaration") {
        Some("class")
    } else if chars_equal(k, "record_declaration") {
        if normalized {
            Some("class")
        } else {
            Some("record")
        }
    } else if chars_equal(k, "struct_declaration") {
        if normalized {
            Some("class")
        } else {
            Some("struct")
        }
    } else if chars_equal(k, "interface_declaration") {
        Some("interface")
    } else if chars_equal(k, "enum_declaration") {
        Some("enum")
    } else if chars_equal(k, "delegate_declaration") {
        Some("delegate")
    } else if chars_equal(k, "method_declaration") {
        Some("method")
    } else if chars_equal(k, "constructor_declaration") {
        Some("constructor")
    } else if chars_equal(k, "property_declaration") {
        Some("property")
    } else {
        None
    }
}

/// The kind of definition `node` is, if it is one.
pub fn definition_kind_of(names: KindNames, language: SupportedLanguage, node: &SyntaxNode) -> (r: Option<&'static str>)
    ensures
        crate::config::opt_view(r) == definition_kind(names, language, node.kind@, string_opt(node.value_kind)),
{
    let k = chars_of(node.kind.as_str());
    match language {
        SupportedLanguage::Rust => rust_kind_of(&k),
        SupportedLanguage::JavaScript => javascript_kind_of(&k, &node.value_kind),
        SupportedLanguage::TypeScript => typescript_kind_of(names, &k, &node.value_kind),
        SupportedLanguage::CSharp => csharp_kind_of(names, &k),
    }
}


// ---------------------------------------------------------------------------
// Names and qualification.
// ---------------------------------------------------------------------------

/// The text of a node's name: the bytes of its `name` field, when they lie
/// in the source and are UTF-8, without surrounding white space; none when
/// that leaves nothing.
pub open spec fn name_text(source: Seq<u8>, range: Option<(usize, usize)>) -> Option<Seq<char>> {
    match range {
        Some((start, end)) => if start <= end && end <= source.len() && valid_utf8(
            source.subrange(start as int, end as int),
        ) {
            let text = trim(decode_utf8(source.subrange(start as int, end as int)));
            if text.len() > 0 {
                Some(text)
            } else {
                None
            }
        } else {
            None
        },
        None => None,
    }
}

pub open spec fn chars_opt(value: Option<Vec<char>>) -> Option<Seq<char>> {
    match value {
        Some(v) => Some(v@),
        None => None,
    }
}

fn name_of(source: &[u8], range: Option<(usize, usize)>) -> (name: Option<Vec<char>>)
    ensures
        chars_opt(name) == name_text(source@, range),
{
    match range {
        Some((start, end)) => {
            if start <= end && end <= source.len() {
                match utf8_text(slice_subrange(source, start, end)) {
                    Some(text) => {
                        let name = trimmed(&chars_of(text.as_str()));
                        if name.len() > 0 {
                            Some(name)
                        } else {
                            None
                        }
                    },
                    None => None,
                }
            } else {
                None
            }
        },
        None => None,
    }
}

/// The full name of namespace `name` declared inside namespace `parent`:
/// `name` when it already is, or starts with, the parent's name; otherwise
/// the two joined by a dot.
pub open spec fn qualify_namespace(parent: Option<Seq<char>>, name: Seq<char>) -> Seq<char> {
    match parent {
        Some(p) => if name == p || has_prefix(name, p + "."@) {
            name
        } else {
            p + "."@ + name
        },
        None => name,
    }
}

fn qualify_namespace_of(parent: &Option<Vec<char>>, name: &Vec<char>) -> (r: Vec<char>)
    ensures
        r@ == qualify_namespace(chars_opt(*parent), name@),
{
    match parent {
        Some(p) => {
            let mut dotted = copy_chars(p);
            dotted.push('.');
            assert(dotted@ =~= p@ + "."@) by {
                reveal_strlit(".");
            }
            if crate::git::chars_same(name, p) || starts_with(name, &dotted) {
                copy_chars(name)
            } else {
                append_chars(&mut dotted, name);
                dotted
            }
        },
        None => copy_chars(name),
    }
}

/// What separates the parts of a qualified name.
pub open spec fn separator(language: SupportedLanguage) -> Seq<char> {
    if language == SupportedLanguage::Rust {
        "::"@
    } else {
        "."@
    }
}

/// Where a definition stands: the name of the definition that immediately
/// encloses it, the namespace in effect, and the qualified name of the
/// innermost enclosing definition.
pub struct Scope {
    pub parent: Option<Seq<char>>,
    pub namespace: Option<Seq<char>>,
    pub enclosing: Option<Seq<char>>,
}

/// The scope at the top of a file.
pub open spec fn file_scope() -> Scope {
    Scope { parent: None, namespace: None, enclosing: None }
}

/// The qualified name of a definition named `name` in `scope`: the
/// innermost enclosing definition's qualified name, or else the namespace,
/// then the name.
pub open spec fn qualified(language: SupportedLanguage, scope: Scope, name: Seq<char>) -> Seq<char> {
    match scope.enclosing {
        Some(e) => e + separator(language) + name,
        None => match scope.namespace {
            Some(n) => n + separator(language) + name,
            None => name,
        },
    }
}

/// A one-based line or column from a zero-based row or column.
pub open spec fn one_based(x: usize) -> usize {
    if x < usize::MAX {
        (x + 1) as usize
    } else {
        x
    }
}

/// The symbol for a definition of kind `kind` named `name` at `node`. A
/// namespace is named by its full name and has no namespace or parent of
/// its own.
pub open spec fn definition_symbol(
    language: SupportedLanguage,
    node: SyntaxNode,
    kind: Seq<char>,
    name: Seq<char>,
    scope: Scope,
) -> SymbolView {
    let is_namespace = kind == "namespace"@;
    let full = qualify_namespace(scope.namespace, name);
    SymbolView {
        name: if is_namespace { full } else { name },
        qualified_name: if is_namespace { full } else { qualified(language, scope, name) },
        kind: kind,
        namespace: if is_namespace { None } else { scope.namespace },
        start_line: one_based(node.start_row),
        start_column: one_based(node.start_column),
        end_line: one_based(node.end_row),
        end_column: one_based(node.end_column),
        parent: if is_namespace { None } else { scope.parent },
    }
}

/// The scope inside a definition.
pub open spec fn inner_scope(language: SupportedLanguage, kind: Seq<char>, name: Seq<char>, scope: Scope) -> Scope {
    if kind == "namespace"@ {
        Scope {
            parent: scope.parent,
            namespace: Some(qualify_namespace(scope.namespace, name)),
            enclosing: scope.enclosing,
        }
    } else {
        Scope {
            parent: Some(name),
            namespace: scope.namespace,
            enclosing: Some(qualified(language, scope, name)),
        }
    }
}

/// The definition a node is, as its kind and name.
pub open spec fn node_definition(
    names: KindNames,
    language: SupportedLanguage,
    source: Seq<u8>,
    node: SyntaxNode,
) -> Option<(Seq<char>, Seq<char>)> {
    match definition_kind(names, language, node.kind@, string_opt(node.value_kind)) {
        Some(kind) => match name_text(source, node.name) {
            Some(name) => Some((kind, name)),
            None => None,
        },
        None => None,
    }
}

/// The namespace that a C# file-scoped namespace declaration puts in effect
/// for the declarations after it, inside namespace `current`.
pub open spec fn namespace_after(
    names: KindNames,
    language: SupportedLanguage,
    source: Seq<u8>,
    node: SyntaxNode,
    current: Option<Seq<char>>,
) -> Option<Seq<char>> {
    if names == KindNames::Normalized && language == SupportedLanguage::CSharp && node.kind@
        == "file_scoped_namespace_declaration"@ {
        match name_text(source, node.name) {
            Some(name) => Some(qualify_namespace(current, name)),
            None => None,
        }
    } else {
        None
    }
}

/// The symbols of a node and its descendants, in document order.
pub open spec fn node_symbols(
    names: KindNames,
    language: SupportedLanguage,
    source: Seq<u8>,
    node: SyntaxNode,
    scope: Scope,
) -> Seq<SymbolView>
    decreases node, 0nat,
{
    proof {
        assert(decreases_to!(node => node.children));
        assert(decreases_to!(node.children => node.children@));
    }
    match node_definition(names, language, source, node) {
        Some((kind, name)) => seq![definition_symbol(language, node, kind, name, scope)] + children_symbols(
            names,
            language,
            source,
            node.children@,
            node.children@.len(),
            inner_scope(language, kind, name, scope),
        ).0,
        None => children_symbols(names, language, source, node.children@, node.children@.len(), scope).0,
    }
}

/// The symbols of the first `k` of `children` in `scope`, and the namespace
/// in effect after them.
pub open spec fn children_symbols(
    names: KindNames,
    language: SupportedLanguage,
    source: Seq<u8>,
    children: Seq<SyntaxNode>,
    k: nat,
    scope: Scope,
) -> (Seq<SymbolView>, Option<Seq<char>>)
    decreases children, k,
{
    if k == 0 || k > children.len() {
        (Seq::empty(), scope.namespace)
    } else {
        let (earlier, sibling) = children_symbols(names, language, source, children, (k - 1) as nat, scope);
        let child = children[k - 1];
        let mine = node_symbols(
            names,
            language,
            source,
            child,
            Scope { parent: scope.parent, namespace: sibling, enclosing: scope.enclosing },
        );
        let next = match namespace_after(names, language, source, child, scope.namespace) {
            Some(n) => Some(n),
            None => sibling,
        };
        (earlier + mine, next)
    }
}


// ---------------------------------------------------------------------------
// Collecting symbols.
// ---------------------------------------------------------------------------

pub open spec fn symbol_views(symbols: Seq<Symbol>) -> Seq<SymbolView> {
    symbols.map_values(|s: Symbol| s@)
}

pub open spec fn scope_of(parent: Option<Vec<char>>, namespace: Option<Vec<char>>, enclosing: Option<Vec<char>>) -> Scope {
    Scope { parent: chars_opt(parent), namespace: chars_opt(namespace), enclosing: chars_opt(enclosing) }
}

fn copy_opt(value: &Option<Vec<char>>) -> (r: Option<Vec<char>>)
    ensures
        chars_opt(r) == chars_opt(*value),
{
    match value {
        Some(v) => Some(copy_chars(v)),
        None => None,
    }
}

fn string_opt_of(value: &Option<Vec<char>>) -> (r: Option<String>)
    ensures
        string_opt(r) == chars_opt(*value),
{
    match value {
        Some(v) => Some(string_from_chars(v)),
        None => None,
    }
}

fn one_based_of(x: usize) -> (r: usize)
    ensures
        r == one_based(x),
{
    if x < usize::MAX {
        x + 1
    } else {
        x
    }
}

fn qualified_of(
    language: SupportedLanguage,
    namespace: &Option<Vec<char>>,
    enclosing: &Option<Vec<char>>,
    name: &Vec<char>,
) -> (r: Vec<char>)
    ensures
        r@ == qualified(language, Scope { parent: None, namespace: chars_opt(*namespace), enclosing: chars_opt(*enclosing) }, name@),
{
    let sep = if language == SupportedLanguage::Rust { "::" } else { "." };
    let prefix = match enclosing {
        Some(e) => Some(e),
        None => match namespace {
            Some(n) => Some(n),
            None => None,
        },
    };
    match prefix {
        Some(p) => {
            let mut r = copy_chars(p);
            append_str(&mut r, sep);
            append_chars(&mut r, name);
            r
        },
        None => copy_chars(name),
    }
}

fn namespace_after_of(
    names: KindNames,
    language: SupportedLanguage,
    source: &[u8],
    node: &SyntaxNode,
    current: &Option<Vec<char>>,
) -> (r: Option<Vec<char>>)
    ensures
        chars_opt(r) == namespace_after(names, language, source@, *node, chars_opt(*current)),
{
    if names == KindNames::Normalized && language == SupportedLanguage::CSharp && chars_equal(
        &chars_of(node.kind.as_str()),
        "file_scoped_namespace_declaration",
    ) {
        match name_of(source, node.name) {
            Some(name) => Some(qualify_namespace_of(current, &name)),
            None => None,
        }
    } else {
        None
    }
}

/// Appends the symbols of `node` and its descendants, in `scope`.
fn collect_symbols(
    names: KindNames,
    language: SupportedLanguage,
    source: &[u8],
    node: &SyntaxNode,
    parent: &Option<Vec<char>>,
    namespace: &Option<Vec<char>>,
    enclosing: &Option<Vec<char>>,
    symbols: &mut Vec<Symbol>,
)
    ensures
        symbol_views(final(symbols)@) == symbol_views(old(symbols)@) + node_symbols(
            names,
            language,
            source@,
            *node,
            scope_of(*parent, *namespace, *enclosing),
        ),
    decreases node,
{
    let ghost scope = scope_of(*parent, *namespace, *enclosing);
    let ghost start = symbol_views(symbols@);
    let mut next_parent = copy_opt(parent);
    let mut next_namespace = copy_opt(namespace);
    let mut next_enclosing = copy_opt(enclosing);
    let kind = definition_kind_of(names, language, node);
    let definition = match kind {
        Some(k) => match name_of(source, node.name) {
            Some(name) => Some((k, name)),
            None => None,
        },
        None => None,
    };
    let ghost own: Seq<SymbolView> = Seq::empty();
    match definition {
        Some((kind, name)) => {
            let is_namespace = chars_equal(&chars_of(kind), "namespace");
            let full = qualify_namespace_of(namespace, &name);
            let long = if is_namespace {
                copy_chars(&full)
            } else {
                qualified_of(language, namespace, enclosing, &name)
            };
            let symbol = Symbol {
                name: if is_namespace { string_from_chars(&full) } else { string_from_chars(&name) },
                qualified_name: string_from_chars(&long),
                kind: String::from_str(kind),
                namespace: if is_namespace { None } else { string_opt_of(namespace) },
                start_line: one_based_of(node.start_row),
                start_column: one_based_of(node.start_column),
                end_line: one_based_of(node.end_row),
                end_column: one_based_of(node.end_column),
                parent: if is_namespace { None } else { string_opt_of(parent) },
            };
            proof {
                own = seq![symbol@];
                assert(symbol@ == definition_symbol(language, *node, kind@, name@, scope));
            }
            symbols.push(symbol);
            if is_namespace {
                next_namespace = Some(full);
            } else {
                next_parent = Some(name);
                next_enclosing = Some(long);
            }
        },
        None => {},
    }
    let ghost inner = scope_of(next_parent, next_namespace, next_enclosing);
    proof {
        match node_definition(names, language, source@, *node) {
            Some((k, n)) => {
                assert(inner == inner_scope(language, k, n, scope));
            },
            None => {
                assert(inner == scope);
            },
        }
    }
    let ghost children = node.children@;
    let mut sibling = copy_opt(&next_namespace);
    let mut i: usize = 0;
    assert(symbol_views(symbols@) =~= start + own);
    while i < node.children.len()
        invariant
            i <= children.len(),
            children == node.children@,
            inner == scope_of(next_parent, next_namespace, next_enclosing),
            symbol_views(symbols@) == start + own + children_symbols(names, language, source@, children, i as nat, inner).0,
            chars_opt(sibling) == children_symbols(names, language, source@, children, i as nat, inner).1,
        decreases children.len() - i,
    {
        let child = &node.children[i];
        let ghost before = symbol_views(symbols@);
        proof {
            assert(decreases_to!(*node => node.children));
            assert(decreases_to!(node.children => node.children@));
            assert(decreases_to!(node.children@ => node.children@[i as int]));
        }
        collect_symbols(names, language, source, child, &next_parent, &sibling, &next_enclosing, symbols);
        let after = namespace_after_of(names, language, source, child, &next_namespace);
        match after {
            Some(n) => {
                sibling = Some(n);
            },
            None => {},
        }
        i += 1;
    }
    proof {
        match node_definition(names, language, source@, *node) {
            Some((k, n)) => {
                assert(own == seq![definition_symbol(language, *node, k, n, scope)]);
            },
            None => {
                assert(own =~= Seq::<SymbolView>::empty());
            },
        }
    }
}


/// The symbols that the syntax tree `tree` of `source` declares, with
/// definition kinds named by `names`, in document order.
pub fn symbols_in_tree(names: KindNames, language: SupportedLanguage, source: &[u8], tree: &SyntaxNode) -> (symbols: Vec<Symbol>)
    ensures
        symbol_views(symbols@) == node_symbols(names, language, source@, *tree, file_scope()),
{
    let mut symbols: Vec<Symbol> = Vec::new();
    collect_symbols(names, language, source, tree, &None, &None, &None, &mut symbols);
    assert(symbol_views(symbols@) =~= node_symbols(names, language, source@, *tree, file_scope()));
    symbols
}

/// The symbols that `source` declares, parsed with `grammar`, or why it
/// could not be parsed.
pub open spec fn parsed_symbols(
    names: KindNames,
    language: SupportedLanguage,
    grammar: Grammar,
    source: Seq<u8>,
) -> Result<Seq<SymbolView>, ParseFailure> {
    match syntax_tree(grammar, source) {
        Ok(tree) => Ok(node_symbols(names, language, source, tree, file_scope())),
        Err(failure) => Err(failure),
    }
}

pub open spec fn symbols_outcome(r: Result<Vec<Symbol>, ParseFailure>) -> Result<Seq<SymbolView>, ParseFailure> {
    match r {
        Ok(symbols) => Ok(symbol_views(symbols@)),
        Err(failure) => Err(failure),
    }
}

/// Parses `source` with `grammar` and collects its symbols.
pub fn parse_with(names: KindNames, language: SupportedLanguage, grammar: Grammar, source: &[u8]) -> (r: Result<Vec<Symbol>, ParseFailure>)
    ensures
        symbols_outcome(r) == parsed_symbols(names, language, grammar, source@),
        r is Ok && source@.len() < 0x1_0000_0000 ==> lines_ordered(r->Ok_0@),
{
    match parse_syntax(grammar, source) {
        Ok(tree) => {
            let symbols = symbols_in_tree(names, language, source, &tree);
            proof {
                lemma_symbols_follow_definitions(names, language, source@, tree);
                if source@.len() < 0x1_0000_0000 {
                    assert forall|i: int| 0 <= i < symbols@.len() implies (#[trigger] symbols@[i]).start_line
                        <= symbols@[i].end_line by {
                        assert(symbol_views(symbols@)[i] == symbols@[i]@);
                    }
                }
            }
            Ok(symbols)
        },
        Err(failure) => Err(failure),
    }
}

/// Whether no symbol ends on a line before the line it starts on.
pub open spec fn lines_ordered(symbols: Seq<Symbol>) -> bool {
    forall|i: int| 0 <= i < symbols.len() ==> (#[trigger] symbols[i]).start_line <= symbols[i].end_line
}

/// The symbols that a source file in `language` declares.
pub fn parse_source(source: &[u8], language: SupportedLanguage) -> (r: Result<Vec<Symbol>, ParseFailure>)
    ensures
        symbols_outcome(r) == parsed_symbols(KindNames::Normalized, language, grammar_of(language, None), source@),
        r is Ok && source@.len() < 0x1_0000_0000 ==> lines_ordered(r->Ok_0@),
{
    let grammar = grammar_for(language, None);
    parse_with(KindNames::Normalized, language, grammar, source)
}

/// The symbols that the source file at `path` declares, given its contents;
/// the path decides the TypeScript dialect.
pub fn parse_file_source(source: &[u8], language: SupportedLanguage, path: &str) -> (r: Result<Vec<Symbol>, ParseFailure>)
    ensures
        symbols_outcome(r) == parsed_symbols(KindNames::Normalized, language, grammar_of(language, Some(path@)), source@),
        r is Ok && source@.len() < 0x1_0000_0000 ==> lines_ordered(r->Ok_0@),
{
    let grammar = grammar_for(language, Some(path));
    parse_with(KindNames::Normalized, language, grammar, source)
}

// ---------------------------------------------------------------------------
// The shape of extracted symbols.
// ---------------------------------------------------------------------------

/// Whether `s` is not empty and neither starts nor ends with white space.
pub open spec fn trimmed_text(s: Seq<char>) -> bool {
    s.len() > 0 && !unicode_white_space(s[0]) && !unicode_white_space(s.last())
}

/// What holds of every extracted symbol: its name is trimmed and not empty,
/// its qualified name ends with its name, and its positions are one-based.
pub open spec fn symbol_shape(symbol: SymbolView) -> bool {
    &&& trimmed_text(symbol.name)
    &&& has_suffix(symbol.qualified_name, symbol.name)
    &&& symbol.start_line >= 1 && symbol.start_column >= 1
    &&& symbol.end_line >= 1 && symbol.end_column >= 1
}

/// Whether the namespace in effect, if any, is a trimmed name.
pub open spec fn scope_shape(scope: Scope) -> bool {
    scope.namespace matches Some(n) ==> trimmed_text(n)
}

proof fn lemma_name_text_trimmed(source: Seq<u8>, range: Option<(usize, usize)>)
    ensures
        name_text(source, range) matches Some(name) ==> trimmed_text(name),
{
    if let Some((start, end)) = range {
        if start <= end && end <= source.len() && valid_utf8(source.subrange(start as int, end as int)) {
            lemma_trim_shape(decode_utf8(source.subrange(start as int, end as int)));
        }
    }
}

proof fn lemma_qualified_namespace_trimmed(parent: Option<Seq<char>>, name: Seq<char>)
    requires
        parent matches Some(p) ==> trimmed_text(p),
        trimmed_text(name),
    ensures
        trimmed_text(qualify_namespace(parent, name)),
{
    if let Some(p) = parent {
        let joined = p + "."@ + name;
        assert(joined[0] == p[0]);
        assert(joined.last() == name.last());
    }
}

proof fn lemma_ends_with(front: Seq<char>, name: Seq<char>)
    ensures
        has_suffix(front + name, name),
{
    assert((front + name).subrange(front.len() as int, (front + name).len() as int) =~= name);
}

proof fn lemma_definition_symbol_shape(
    language: SupportedLanguage,
    node: SyntaxNode,
    kind: Seq<char>,
    name: Seq<char>,
    scope: Scope,
)
    requires
        scope_shape(scope),
        trimmed_text(name),
    ensures
        symbol_shape(definition_symbol(language, node, kind, name, scope)),
        scope_shape(inner_scope(language, kind, name, scope)),
{
    lemma_qualified_namespace_trimmed(scope.namespace, name);
    let s = definition_symbol(language, node, kind, name, scope);
    if kind == "namespace"@ {
        lemma_ends_with(Seq::<char>::empty(), s.name);
        assert(Seq::<char>::empty() + s.name =~= s.name);
    } else {
        match scope.enclosing {
            Some(e) => lemma_ends_with(e + separator(language), name),
            None => match scope.namespace {
                Some(n) => lemma_ends_with(n + separator(language), name),
                None => {
                    lemma_ends_with(Seq::<char>::empty(), name);
                    assert(Seq::<char>::empty() + name =~= name);
                },
            },
        }
    }
}

proof fn lemma_node_symbols_shape(
    names: KindNames,
    language: SupportedLanguage,
    source: Seq<u8>,
    node: SyntaxNode,
    scope: Scope,
)
    requires
        scope_shape(scope),
    ensures
        forall|i: int|
            0 <= i < node_symbols(names, language, source, node, scope).len() ==> symbol_shape(
                #[trigger] node_symbols(names, language, source, node, scope)[i],
            ),
    decreases node, 0nat,
{
    assert(decreases_to!(node => node.children));
    assert(decreases_to!(node.children => node.children@));
    let children = node.children@;
    match node_definition(names, language, source, node) {
        Some((kind, name)) => {
            lemma_name_text_trimmed(source, node.name);
            lemma_definition_symbol_shape(language, node, kind, name, scope);
            let inner = inner_scope(language, kind, name, scope);
            lemma_children_symbols_shape(names, language, source, children, children.len(), inner);
            let first = seq![definition_symbol(language, node, kind, name, scope)];
            let rest = children_symbols(names, language, source, children, children.len(), inner).0;
            let all = node_symbols(names, language, source, node, scope);
            assert(all == first + rest);
            assert forall|i: int| 0 <= i < all.len() implies symbol_shape(#[trigger] all[i]) by {
                if i > 0 {
                    assert(all[i] == rest[i - 1]);
                }
            }
        },
        None => {
            lemma_children_symbols_shape(names, language, source, children, children.len(), scope);
        },
    }
}

proof fn lemma_children_symbols_shape(
    names: KindNames,
    language: SupportedLanguage,
    source: Seq<u8>,
    children: Seq<SyntaxNode>,
    k: nat,
    scope: Scope,
)
    requires
        scope_shape(scope),
    ensures
        forall|i: int|
            0 <= i < children_symbols(names, language, source, children, k, scope).0.len() ==> symbol_shape(
                #[trigger] children_symbols(names, language, source, children, k, scope).0[i],
            ),
        children_symbols(names, language, source, children, k, scope).1 matches Some(n) ==> trimmed_text(n),
    decreases children, k,
{
    if k > 0 && k <= children.len() {
        lemma_children_symbols_shape(names, language, source, children, (k - 1) as nat, scope);
        let (earlier, sibling) = children_symbols(names, language, source, children, (k - 1) as nat, scope);
        let child = children[k - 1];
        assert(decreases_to!(children => child));
        let inner = Scope { parent: scope.parent, namespace: sibling, enclosing: scope.enclosing };
        lemma_node_symbols_shape(names, language, source, child, inner);
        let mine = node_symbols(names, language, source, child, inner);
        let all = children_symbols(names, language, source, children, k, scope).0;
        assert(all == earlier + mine);
        assert forall|i: int| 0 <= i < all.len() implies symbol_shape(#[trigger] all[i]) by {
            if i < earlier.len() {
                assert(all[i] == earlier[i]);
            } else {
                assert(all[i] == mine[i - earlier.len()]);
            }
        }
        if let Some(name) = name_text(source, child.name) {
            lemma_name_text_trimmed(source, child.name);
            lemma_qualified_namespace_trimmed(scope.namespace, name);
        }
    }
}

/// Every symbol found in a parsed source has a trimmed, non-empty name, a
/// qualified name that ends with that name, and one-based lines and
/// columns.
pub proof fn lemma_parsed_symbols_shape(names: KindNames, language: SupportedLanguage, grammar: Grammar, source: Seq<u8>)
    ensures
        parsed_symbols(names, language, grammar, source) is Ok ==> forall|i: int|
            0 <= i < parsed_symbols(names, language, grammar, source)->Ok_0.len() ==> symbol_shape(
                #[trigger] parsed_symbols(names, language, grammar, source)->Ok_0[i],
            ),
{
    if let Ok(tree) = syntax_tree(grammar, source) {
        lemma_node_symbols_shape(names, language, source, tree, file_scope());
    }
}

// ---------------------------------------------------------------------------
// Symbols and the definitions they come from.
// ---------------------------------------------------------------------------

/// Whether no node of the tree ends on a row before the row it starts on.
pub open spec fn rows_ordered(node: SyntaxNode) -> bool
    decreases node, 0nat,
{
    proof {
        assert(decreases_to!(node => node.children));
        assert(decreases_to!(node.children => node.children@));
    }
    node.start_row <= node.end_row && children_rows_ordered(node.children@, node.children@.len())
}

/// Whether the first `k` of `children` and their descendants all have
/// ordered rows.
pub open spec fn children_rows_ordered(children: Seq<SyntaxNode>, k: nat) -> bool
    decreases children, k,
{
    if k == 0 || k > children.len() {
        true
    } else {
        children_rows_ordered(children, (k - 1) as nat) && rows_ordered(children[k - 1])
    }
}

/// The definition nodes among a node and its descendants, in pre-order: a
/// node before the nodes inside it, and children in document order.
pub open spec fn definition_nodes(names: KindNames, language: SupportedLanguage, source: Seq<u8>, node: SyntaxNode) -> Seq<
    SyntaxNode,
>
    decreases node, 0nat,
{
    proof {
        assert(decreases_to!(node => node.children));
        assert(decreases_to!(node.children => node.children@));
    }
    let inside = children_definition_nodes(names, language, source, node.children@, node.children@.len());
    if node_definition(names, language, source, node) is Some {
        seq![node] + inside
    } else {
        inside
    }
}

/// The definition nodes among the first `k` of `children` and their
/// descendants, in pre-order.
pub open spec fn children_definition_nodes(
    names: KindNames,
    language: SupportedLanguage,
    source: Seq<u8>,
    children: Seq<SyntaxNode>,
    k: nat,
) -> Seq<SyntaxNode>
    decreases children, k,
{
    if k == 0 || k > children.len() {
        Seq::empty()
    } else {
        children_definition_nodes(names, language, source, children, (k - 1) as nat) + definition_nodes(
            names,
            language,
            source,
            children[k - 1],
        )
    }
}

/// Whether `symbol` reports the definition node `node`: it has the kind
/// that the language's kind table gives the node, the node's name (a
/// namespace is named by its full name instead, and has neither parent nor
/// namespace), and the node's position counted from one.
pub open spec fn reports_definition(
    names: KindNames,
    language: SupportedLanguage,
    source: Seq<u8>,
    symbol: SymbolView,
    node: SyntaxNode,
) -> bool {
    match node_definition(names, language, source, node) {
        Some((kind, name)) => {
            &&& definition_kind(names, language, node.kind@, string_opt(node.value_kind)) == Some(kind)
            &&& symbol.kind == kind
            &&& (kind != "namespace"@ ==> symbol.name == name)
            &&& (kind == "namespace"@ ==> symbol.parent is None && symbol.namespace is None)
            &&& symbol.start_line == one_based(node.start_row) && symbol.start_column == one_based(node.start_column)
            &&& symbol.end_line == one_based(node.end_row) && symbol.end_column == one_based(node.end_column)
        },
        None => false,
    }
}

proof fn lemma_one_based_monotone(a: usize, b: usize)
    requires
        a <= b,
    ensures
        one_based(a) <= one_based(b),
{
}

proof fn lemma_node_symbols_follow(
    names: KindNames,
    language: SupportedLanguage,
    source: Seq<u8>,
    node: SyntaxNode,
    scope: Scope,
)
    ensures
        node_symbols(names, language, source, node, scope).len() == definition_nodes(names, language, source, node).len(),
        forall|i: int|
            0 <= i < definition_nodes(names, language, source, node).len() ==> reports_definition(
                names,
                language,
                source,
                #[trigger] node_symbols(names, language, source, node, scope)[i],
                definition_nodes(names, language, source, node)[i],
            ),
        rows_ordered(node) ==> forall|i: int|
            0 <= i < definition_nodes(names, language, source, node).len() ==> (#[trigger] definition_nodes(
                names,
                language,
                source,
                node,
            )[i]).start_row <= definition_nodes(names, language, source, node)[i].end_row,
    decreases node, 0nat,
{
    assert(decreases_to!(node => node.children));
    assert(decreases_to!(node.children => node.children@));
    let children = node.children@;
    let syms = node_symbols(names, language, source, node, scope);
    let defs = definition_nodes(names, language, source, node);
    let inside = children_definition_nodes(names, language, source, children, children.len());
    match node_definition(names, language, source, node) {
        Some((kind, name)) => {
            let inner = inner_scope(language, kind, name, scope);
            lemma_children_symbols_follow(names, language, source, children, children.len(), inner);
            let rest = children_symbols(names, language, source, children, children.len(), inner).0;
            assert(syms == seq![definition_symbol(language, node, kind, name, scope)] + rest);
            assert(defs == seq![node] + inside);
            assert forall|i: int| 0 <= i < defs.len() implies reports_definition(
                names,
                language,
                source,
                #[trigger] syms[i],
                defs[i],
            ) by {
                if i > 0 {
                    assert(syms[i] == rest[i - 1] && defs[i] == inside[i - 1]);
                }
            }
            if rows_ordered(node) {
                assert forall|i: int| 0 <= i < defs.len() implies (#[trigger] defs[i]).start_row <= defs[i].end_row by {
                    if i > 0 {
                        assert(defs[i] == inside[i - 1]);
                    }
                }
            }
        },
        None => {
            lemma_children_symbols_follow(names, language, source, children, children.len(), scope);
        },
    }
}

proof fn lemma_children_symbols_follow(
    names: KindNames,
    language: SupportedLanguage,
    source: Seq<u8>,
    children: Seq<SyntaxNode>,
    k: nat,
    scope: Scope,
)
    ensures
        children_symbols(names, language, source, children, k, scope).0.len() == children_definition_nodes(
            names,
            language,
            source,
            children,
            k,
        ).len(),
        forall|i: int|
            0 <= i < children_definition_nodes(names, language, source, children, k).len() ==> reports_definition(
                names,
                language,
                source,
                #[trigger] children_symbols(names, language, source, children, k, scope).0[i],
                children_definition_nodes(names, language, source, children, k)[i],
            ),
        children_rows_ordered(children, k) ==> forall|i: int|
            0 <= i < children_definition_nodes(names, language, source, children, k).len() ==> (
            #[trigger] children_definition_nodes(names, language, source, children, k)[i]).start_row
                <= children_definition_nodes(names, language, source, children, k)[i].end_row,
    decreases children, k,
{
    if k > 0 && k <= children.len() {
        lemma_children_symbols_follow(names, language, source, children, (k - 1) as nat, scope);
        let (earlier, sibling) = children_symbols(names, language, source, children, (k - 1) as nat, scope);
        let child = children[k - 1];
        assert(decreases_to!(children => child));
        let inner = Scope { parent: scope.parent, namespace: sibling, enclosing: scope.enclosing };
        lemma_node_symbols_follow(names, language, source, child, inner);
        let mine = node_symbols(names, language, source, child, inner);
        let before = children_definition_nodes(names, language, source, children, (k - 1) as nat);
        let theirs = definition_nodes(names, language, source, child);
        let syms = children_symbols(names, language, source, children, k, scope).0;
        let defs = children_definition_nodes(names, language, source, children, k);
        assert(syms == earlier + mine);
        assert(defs == before + theirs);
        assert forall|i: int| 0 <= i < defs.len() implies reports_definition(
            names,
            language,
            source,
            #[trigger] syms[i],
            defs[i],
        ) by {
            if i < before.len() {
                assert(syms[i] == earlier[i] && defs[i] == before[i]);
            } else {
                assert(syms[i] == mine[i - before.len()] && defs[i] == theirs[i - before.len()]);
            }
        }
        if children_rows_ordered(children, k) {
            assert forall|i: int| 0 <= i < defs.len() implies (#[trigger] defs[i]).start_row <= defs[i].end_row by {
                if i < before.len() {
                    assert(defs[i] == before[i]);
                } else {
                    assert(defs[i] == theirs[i - before.len()]);
                }
            }
        }
    }
}

/// The symbols of a syntax tree follow its definitions in pre-order: the
/// `i`-th symbol reports the `i`-th definition node, with the kind that the
/// language's kind table gives it and its position counted from one, and a
/// namespace symbol has neither parent nor namespace. Where no node of the
/// tree ends on a row before it starts, no symbol ends on a line before it
/// starts.
pub proof fn lemma_symbols_follow_definitions(
    names: KindNames,
    language: SupportedLanguage,
    source: Seq<u8>,
    tree: SyntaxNode,
)
    ensures
        node_symbols(names, language, source, tree, file_scope()).len() == definition_nodes(names, language, source, tree).len(),
        forall|i: int|
            0 <= i < definition_nodes(names, language, source, tree).len() ==> reports_definition(
                names,
                language,
                source,
                #[trigger] node_symbols(names, language, source, tree, file_scope())[i],
                definition_nodes(names, language, source, tree)[i],
            ),
        rows_ordered(tree) ==> forall|i: int|
            0 <= i < node_symbols(names, language, source, tree, file_scope()).len() ==> (#[trigger] node_symbols(
                names,
                language,
                source,
                tree,
                file_scope(),
            )[i]).start_line <= node_symbols(names, language, source, tree, file_scope())[i].end_line,
{
    lemma_node_symbols_follow(names, language, source, tree, file_scope());
    let syms = node_symbols(names, language, source, tree, file_scope());
    let defs = definition_nodes(names, language, source, tree);
    if rows_ordered(tree) {
        assert forall|i: int| 0 <= i < syms.len() implies (#[trigger] syms[i]).start_line <= syms[i].end_line by {
            assert(reports_definition(names, language, source, syms[i], defs[i]));
            assert(defs[i].start_row <= defs[i].end_row);
            lemma_one_based_monotone(defs[i].start_row, defs[i].end_row);
        }
    }
}

// ---------------------------------------------------------------------------
// The definition kind tables.
// ---------------------------------------------------------------------------

/// Rust's definitions: each item kind of the table is reported with its
/// kind, and no other node is a definition.
pub proof fn lemma_rust_definition_kinds(names: KindNames, kind: Seq<char>, value_kind: Option<Seq<char>>)
    ensures
        definition_kind(names, SupportedLanguage::Rust, "struct_item"@, value_kind) == Some("struct"@),
        definition_kind(names, SupportedLanguage::Rust, "enum_item"@, value_kind) == Some("enum"@),
        definition_kind(names, SupportedLanguage::Rust, "union_item"@, value_kind) == Some("union"@),
        definition_kind(names, SupportedLanguage::Rust, "trait_item"@, value_kind) == Some("trait"@),
        definition_kind(names, SupportedLanguage::Rust, "type_item"@, value_kind) == Some("type"@),
        definition_kind(names, SupportedLanguage::Rust, "function_item"@, value_kind) == Some("function"@),
        definition_kind(names, SupportedLanguage::Rust, "function_signature_item"@, value_kind) == Some("function"@),
        definition_kind(names, SupportedLanguage::Rust, "const_item"@, value_kind) == Some("constant"@),
        definition_kind(names, SupportedLanguage::Rust, "static_item"@, value_kind) == Some("static"@),
        definition_kind(names, SupportedLanguage::Rust, kind, value_kind) is Some ==> (kind == "struct_item"@ || kind == "enum_item"@ || kind == "union_item"@ || kind == "trait_item"@ || kind == "type_item"@ || kind == "function_item"@ || kind == "function_signature_item"@ || kind == "const_item"@ || kind == "static_item"@),
{
    reveal_strlit("struct_item");
    reveal_strlit("struct");
    reveal_strlit("enum_item");
    reveal_strlit("enum");
    reveal_strlit("union_item");
    reveal_strlit("union");
    reveal_strlit("trait_item");
    reveal_strlit("trait");
    reveal_strlit("type_item");
    reveal_strlit("type");
    reveal_strlit("function_item");
    reveal_strlit("function");
    reveal_strlit("function_signature_item");
    reveal_strlit("const_item");
    reveal_strlit("constant");
    reveal_strlit("static_item");
    reveal_strlit("static");
    assert("struct_item"@.len() != "enum_item"@.len());
    assert("struct_item"@.len() != "union_item"@.len());
    assert("struct_item"@.len() != "trait_item"@.len());
    assert("struct_item"@.len() != "type_item"@.len());
    assert("struct_item"@.len() != "function_item"@.len());
    assert("struct_item"@.len() != "function_signature_item"@.len());
    assert("struct_item"@.len() != "const_item"@.len());
    assert("struct_item"@[2] != "static_item"@[2]);
    assert("enum_item"@.len() != "union_item"@.len());
    assert("enum_item"@.len() != "trait_item"@.len());
    assert("enum_item"@[0] != "type_item"@[0]);
    assert("enum_item"@.len() != "function_item"@.len());
    assert("enum_item"@.len() != "function_signature_item"@.len());
    assert("enum_item"@.len() != "const_item"@.len());
    assert("enum_item"@.len() != "static_item"@.len());
    assert("union_item"@[0] != "trait_item"@[0]);
    assert("union_item"@.len() != "type_item"@.len());
    assert("union_item"@.len() != "function_item"@.len());
    assert("union_item"@.len() != "function_signature_item"@.len());
    assert("union_item"@[0] != "const_item"@[0]);
    assert("union_item"@.len() != "static_item"@.len());
    assert("trait_item"@.len() != "type_item"@.len());
    assert("trait_item"@.len() != "function_item"@.len());
    assert("trait_item"@.len() != "function_signature_item"@.len());
    assert("trait_item"@[0] != "const_item"@[0]);
    assert("trait_item"@.len() != "static_item"@.len());
    assert("type_item"@.len() != "function_item"@.len());
    assert("type_item"@.len() != "function_signature_item"@.len());
    assert("type_item"@.len() != "const_item"@.len());
    assert("type_item"@.len() != "static_item"@.len());
    assert("function_item"@.len() != "function_signature_item"@.len());
    assert("function_item"@.len() != "const_item"@.len());
    assert("function_item"@.len() != "static_item"@.len());
    assert("function_signature_item"@.len() != "const_item"@.len());
    assert("function_signature_item"@.len() != "static_item"@.len());
    assert("const_item"@.len() != "static_item"@.len());
}

/// JavaScript's definitions: each declaration kind of the table is reported
/// with its kind; a variable declaration is a function exactly when its
/// value is an arrow function or a function expression; no other node is a
/// definition.
pub proof fn lemma_javascript_definition_kinds(names: KindNames, kind: Seq<char>, value_kind: Option<Seq<char>>)
    ensures
        definition_kind(names, SupportedLanguage::JavaScript, "class_declaration"@, value_kind) == Some("class"@),
        definition_kind(names, SupportedLanguage::JavaScript, "function_declaration"@, value_kind) == Some("function"@),
        definition_kind(names, SupportedLanguage::JavaScript, "generator_function_declaration"@, value_kind) == Some("function"@),
        definition_kind(names, SupportedLanguage::JavaScript, "method_definition"@, value_kind) == Some("method"@),
        definition_kind(names, SupportedLanguage::JavaScript, "variable_declarator"@, Some("arrow_function"@)) == Some("function"@),
        definition_kind(names, SupportedLanguage::JavaScript, "variable_declarator"@, Some("function_expression"@)) == Some("function"@),
        value_kind != Some("arrow_function"@) && value_kind != Some("function_expression"@) ==> definition_kind(names, SupportedLanguage::JavaScript, "variable_declarator"@, value_kind) is None,
        definition_kind(names, SupportedLanguage::JavaScript, kind, value_kind) is Some ==> (kind == "class_declaration"@ || kind == "function_declaration"@ || kind == "generator_function_declaration"@ || kind == "method_definition"@ || kind == "variable_declarator"@),
{
    reveal_strlit("class_declaration");
    reveal_strlit("class");
    reveal_strlit("function_declaration");
    reveal_strlit("function");
    reveal_strlit("generator_function_declaration");
    reveal_strlit("method_definition");
    reveal_strlit("method");
    reveal_strlit("variable_declarator");
    reveal_strlit("arrow_function");
    reveal_strlit("function_expression");
    assert("class_declaration"@.len() != "function_declaration"@.len());
    assert("class_declaration"@.len() != "generator_function_declaration"@.len());
    assert("class_declaration"@[0] != "method_definition"@[0]);
    assert("class_declaration"@.len() != "variable_declarator"@.len());
    assert("class_declaration"@.len() != "arrow_function"@.len());
    assert("class_declaration"@.len() != "function_expression"@.len());
    assert("function_declaration"@.len() != "generator_function_declaration"@.len());
    assert("function_declaration"@.len() != "method_definition"@.len());
    assert("function_declaration"@.len() != "variable_declarator"@.len());
    assert("function_declaration"@.len() != "arrow_function"@.len());
    assert("function_declaration"@.len() != "function_expression"@.len());
    assert("generator_function_declaration"@.len() != "method_definition"@.len());
    assert("generator_function_declaration"@.len() != "variable_declarator"@.len());
    assert("generator_function_declaration"@.len() != "arrow_function"@.len());
    assert("generator_function_declaration"@.len() != "function_expression"@.len());
    assert("method_definition"@.len() != "variable_declarator"@.len());
    assert("method_definition"@.len() != "arrow_function"@.len());
    assert("method_definition"@.len() != "function_expression"@.len());
    assert("variable_declarator"@.len() != "arrow_function"@.len());
    assert("variable_declarator"@[0] != "function_expression"@[0]);
    assert("arrow_function"@.len() != "function_expression"@.len());
}

/// TypeScript's definitions: each declaration kind of the table is reported
/// with its kind; a function signature is a function among the normalized
/// kinds only; a variable declaration is a function exactly when its value
/// is an arrow function or a function expression; no other node is a
/// definition.
pub proof fn lemma_typescript_definition_kinds(names: KindNames, kind: Seq<char>, value_kind: Option<Seq<char>>)
    ensures
        definition_kind(names, SupportedLanguage::TypeScript, "class_declaration"@, value_kind) == Some("class"@),
        definition_kind(names, SupportedLanguage::TypeScript, "abstract_class_declaration"@, value_kind) == Some("class"@),
        definition_kind(names, SupportedLanguage::TypeScript, "interface_declaration"@, value_kind) == Some("interface"@),
        definition_kind(names, SupportedLanguage::TypeScript, "type_alias_declaration"@, value_kind) == Some("type"@),
        definition_kind(names, SupportedLanguage::TypeScript, "enum_declaration"@, value_kind) == Some("enum"@),
        definition_kind(names, SupportedLanguage::TypeScript, "function_declaration"@, value_kind) == Some("function"@),
        definition_kind(names, SupportedLanguage::TypeScript, "generator_function_declaration"@, value_kind) == Some("function"@),
        definition_kind(names, SupportedLanguage::TypeScript, "method_definition"@, value_kind) == Some("method"@),
        definition_kind(names, SupportedLanguage::TypeScript, "method_signature"@, value_kind) == Some("method"@),
        definition_kind(names, SupportedLanguage::TypeScript, "abstract_method_signature"@, value_kind) == Some("method"@),
        definition_kind(KindNames::Normalized, SupportedLanguage::TypeScript, "function_signature"@, value_kind) == Some("function"@),
        definition_kind(KindNames::Declared, SupportedLanguage::TypeScript, "function_signature"@, value_kind) is None,
        definition_kind(names, SupportedLanguage::TypeScript, "variable_declarator"@, Some("arrow_function"@)) == Some("function"@),
        definition_kind(names, SupportedLanguage::TypeScript, "variable_declarator"@, Some("function_expression"@)) == Some("function"@),
        value_kind != Some("arrow_function"@) && value_kind != Some("function_expression"@) ==> definition_kind(names, SupportedLanguage::TypeScript, "variable_declarator"@, value_kind) is None,
        definition_kind(names, SupportedLanguage::TypeScript, kind, value_kind) is Some ==> (kind == "class_declaration"@ || kind == "abstract_class_declaration"@ || kind == "interface_declaration"@ || kind == "type_alias_declaration"@ || kind == "enum_declaration"@ || kind == "function_declaration"@ || kind == "generator_function_declaration"@ || kind == "method_definition"@ || kind == "method_signature"@ || kind == "abstract_method_signature"@ || kind == "function_signature"@ || kind == "variable_declarator"@),
{
    reveal_strlit("class_declaration");
    reveal_strlit("class");
    reveal_strlit("abstract_class_declaration");
    reveal_strlit("interface_declaration");
    reveal_strlit("interface");
    reveal_strlit("type_alias_declaration");
    reveal_strlit("type");
    reveal_strlit("enum_declaration");
    reveal_strlit("enum");
    reveal_strlit("function_declaration");
    reveal_strlit("function");
    reveal_strlit("generator_function_declaration");
    reveal_strlit("method_definition");
    reveal_strlit("method");
    reveal_strlit("method_signature");
    reveal_strlit("abstract_method_signature");
    reveal_strlit("function_signature");
    reveal_strlit("variable_declarator");
    reveal_strlit("arrow_function");
    reveal_strlit("function_expression");
    assert("class_declaration"@.len() != "abstract_class_declaration"@.len());
    assert("class_declaration"@.len() != "interface_declaration"@.len());
    assert("class_declaration"@.len() != "type_alias_declaration"@.len());
    assert("class_declaration"@.len() != "enum_declaration"@.len());
    assert("class_declaration"@.len() != "function_declaration"@.len());
    assert("class_declaration"@.len() != "generator_function_declaration"@.len());
    assert("class_declaration"@[0] != "method_definition"@[0]);
    assert("class_declaration"@.len() != "method_signature"@.len());
    assert("class_declaration"@.len() != "abstract_method_signature"@.len());
    assert("class_declaration"@.len() != "function_signature"@.len());
    assert("class_declaration"@.len() != "variable_declarator"@.len());
    assert("class_declaration"@.len() != "arrow_function"@.len());
    assert("class_declaration"@.len() != "function_expression"@.len());
    assert("abstract_class_declaration"@.len() != "interface_declaration"@.len());
    assert("abstract_class_declaration"@.len() != "type_alias_declaration"@.len());
    assert("abstract_class_declaration"@.len() != "enum_declaration"@.len());
    assert("abstract_class_declaration"@.len() != "function_declaration"@.len());
    assert("abstract_class_declaration"@.len() != "generator_function_declaration"@.len());
    assert("abstract_class_declaration"@.len() != "method_definition"@.len());
    assert("abstract_class_declaration"@.len() != "method_signature"@.len());
    assert("abstract_class_declaration"@.len() != "abstract_method_signature"@.len());
    assert("abstract_class_declaration"@.len() != "function_signature"@.len());
    assert("abstract_class_declaration"@.len() != "variable_declarator"@.len());
    assert("abstract_class_declaration"@.len() != "arrow_function"@.len());
    assert("abstract_class_declaration"@.len() != "function_expression"@.len());
    assert("interface_declaration"@.len() != "type_alias_declaration"@.len());
    assert("interface_declaration"@.len() != "enum_declaration"@.len());
    assert("interface_declaration"@.len() != "function_declaration"@.len());
    assert("interface_declaration"@.len() != "generator_function_declaration"@.len());
    assert("interface_declaration"@.len() != "method_definition"@.len());
    assert("interface_declaration"@.len() != "method_signature"@.len());
    assert("interface_declaration"@.len() != "abstract_method_signature"@.len());
    assert("interface_declaration"@.len() != "function_signature"@.len());
    assert("interface_declaration"@.len() != "variable_declarator"@.len());
    assert("interface_declaration"@.len() != "arrow_function"@.len());
    assert("interface_declaration"@.len() != "function_expression"@.len());
    assert("type_alias_declaration"@.len() != "enum_declaration"@.len());
    assert("type_alias_declaration"@.len() != "function_declaration"@.len());
    assert("type_alias_declaration"@.len() != "generator_function_declaration"@.len());
    assert("type_alias_declaration"@.len() != "method_definition"@.len());
    assert("type_alias_declaration"@.len() != "method_signature"@.len());
    assert("type_alias_declaration"@.len() != "abstract_method_signature"@.len());
    assert("type_alias_declaration"@.len() != "function_signature"@.len());
    assert("type_alias_declaration"@.len() != "variable_declarator"@.len());
    assert("type_alias_declaration"@.len() != "arrow_function"@.len());
    assert("type_alias_declaration"@.len() != "function_expression"@.len());
    assert("enum_declaration"@.len() != "function_declaration"@.len());
    assert("enum_declaration"@.len() != "generator_function_declaration"@.len());
    assert("enum_declaration"@.len() != "method_definition"@.len());
    assert("enum_declaration"@[0] != "method_signature"@[0]);
    assert("enum_declaration"@.len() != "abstract_method_signature"@.len());
    assert("enum_declaration"@.len() != "function_signature"@.len());
    assert("enum_declaration"@.len() != "variable_declarator"@.len());
    assert("enum_declaration"@.len() != "arrow_function"@.len());
    assert("enum_declaration"@.len() != "function_expression"@.len());
    assert("function_declaration"@.len() != "generator_function_declaration"@.len());
    assert("function_declaration"@.len() != "method_definition"@.len());
    assert("function_declaration"@.len() != "method_signature"@.len());
    assert("function_declaration"@.len() != "abstract_method_signature"@.len());
    assert("function_declaration"@.len() != "function_signature"@.len());
    assert("function_declaration"@.len() != "variable_declarator"@.len());
    assert("function_declaration"@.len() != "arrow_function"@.len());
    assert("function_declaration"@.len() != "function_expression"@.len());
    assert("generator_function_declaration"@.len() != "method_definition"@.len());
    assert("generator_function_declaration"@.len() != "method_signature"@.len());
    assert("generator_function_declaration"@.len() != "abstract_method_signature"@.len());
    assert("generator_function_declaration"@.len() != "function_signature"@.len());
    assert("generator_function_declaration"@.len() != "variable_declarator"@.len());
    assert("generator_function_declaration"@.len() != "arrow_function"@.len());
    assert("generator_function_declaration"@.len() != "function_expression"@.len());
    assert("method_definition"@.len() != "method_signature"@.len());
    assert("method_definition"@.len() != "abstract_method_signature"@.len());
    assert("method_definition"@.len() != "function_signature"@.len());
    assert("method_definition"@.len() != "variable_declarator"@.len());
    assert("method_definition"@.len() != "arrow_function"@.len());
    assert("method_definition"@.len() != "function_expression"@.len());
    assert("method_signature"@.len() != "abstract_method_signature"@.len());
    assert("method_signature"@.len() != "function_signature"@.len());
    assert("method_signature"@.len() != "variable_declarator"@.len());
    assert("method_signature"@.len() != "arrow_function"@.len());
    assert("method_signature"@.len() != "function_expression"@.len());
    assert("abstract_method_signature"@.len() != "function_signature"@.len());
    assert("abstract_method_signature"@.len() != "variable_declarator"@.len());
    assert("abstract_method_signature"@.len() != "arrow_function"@.len());
    assert("abstract_method_signature"@.len() != "function_expression"@.len());
    assert("function_signature"@.len() != "variable_declarator"@.len());
    assert("function_signature"@.len() != "arrow_function"@.len());
    assert("function_signature"@.len() != "function_expression"@.len());
    assert("variable_declarator"@.len() != "arrow_function"@.len());
    assert("variable_declarator"@[0] != "function_expression"@[0]);
    assert("arrow_function"@.len() != "function_expression"@.len());
}

/// C#'s definitions: each declaration kind of the table is reported with
/// its kind; among the normalized kinds namespaces are definitions and
/// records and structs are classes, while the declared kinds keep records
/// and structs and leave namespaces out; no other node is a definition.
pub proof fn lemma_csharp_definition_kinds(names: KindNames, kind: Seq<char>, value_kind: Option<Seq<char>>)
    ensures
        definition_kind(names, SupportedLanguage::CSharp, "class_declaration"@, value_kind) == Some("class"@),
        definition_kind(names, SupportedLanguage::CSharp, "interface_declaration"@, value_kind) == Some("interface"@),
        definition_kind(names, SupportedLanguage::CSharp, "enum_declaration"@, value_kind) == Some("enum"@),
        definition_kind(names, SupportedLanguage::CSharp, "delegate_declaration"@, value_kind) == Some("delegate"@),
        definition_kind(names, SupportedLanguage::CSharp, "method_declaration"@, value_kind) == Some("method"@),
        definition_kind(names, SupportedLanguage::CSharp, "constructor_declaration"@, value_kind) == Some("constructor"@),
        definition_kind(names, SupportedLanguage::CSharp, "property_declaration"@, value_kind) == Some("property"@),
        definition_kind(KindNames::Normalized, SupportedLanguage::CSharp, "namespace_declaration"@, value_kind) == Some("namespace"@),
        definition_kind(KindNames::Normalized, SupportedLanguage::CSharp, "file_scoped_namespace_declaration"@, value_kind) == Some("namespace"@),
        definition_kind(KindNames::Normalized, SupportedLanguage::CSharp, "record_declaration"@, value_kind) == Some("class"@),
        definition_kind(KindNames::Normalized, SupportedLanguage::CSharp, "struct_declaration"@, value_kind) == Some("class"@),
        definition_kind(KindNames::Declared, SupportedLanguage::CSharp, "record_declaration"@, value_kind) == Some("record"@),
        definition_kind(KindNames::Declared, SupportedLanguage::CSharp, "struct_declaration"@, value_kind) == Some("struct"@),
        definition_kind(KindNames::Declared, SupportedLanguage::CSharp, "namespace_declaration"@, value_kind) is None,
        definition_kind(KindNames::Declared, SupportedLanguage::CSharp, "file_scoped_namespace_declaration"@, value_kind) is None,
        definition_kind(names, SupportedLanguage::CSharp, kind, value_kind) is Some ==> (kind == "class_declaration"@ || kind == "interface_declaration"@ || kind == "enum_declaration"@ || kind == "delegate_declaration"@ || kind == "method_declaration"@ || kind == "constructor_declaration"@ || kind == "property_declaration"@ || kind == "namespace_declaration"@ || kind == "file_scoped_namespace_declaration"@ || kind == "record_declaration"@ || kind == "struct_declaration"@),
{
    reveal_strlit("class_declaration");
    reveal_strlit("class");
    reveal_strlit("interface_declaration");
    reveal_strlit("interface");
    reveal_strlit("enum_declaration");
    reveal_strlit("enum");
    reveal_strlit("delegate_declaration");
    reveal_strlit("delegate");
    reveal_strlit("method_declaration");
    reveal_strlit("method");
    reveal_strlit("constructor_declaration");
    reveal_strlit("constructor");
    reveal_strlit("property_declaration");
    reveal_strlit("property");
    reveal_strlit("namespace_declaration");
    reveal_strlit("namespace");
    reveal_strlit("file_scoped_namespace_declaration");
    reveal_strlit("record_declaration");
    reveal_strlit("struct_declaration");
    reveal_strlit("record");
    reveal_strlit("struct");
    assert("class_declaration"@.len() != "interface_declaration"@.len());
    assert("class_declaration"@.len() != "enum_declaration"@.len());
    assert("class_declaration"@.len() != "delegate_declaration"@.len());
    assert("class_declaration"@.len() != "method_declaration"@.len());
    assert("class_declaration"@.len() != "constructor_declaration"@.len());
    assert("class_declaration"@.len() != "property_declaration"@.len());
    assert("class_declaration"@.len() != "namespace_declaration"@.len());
    assert("class_declaration"@.len() != "file_scoped_namespace_declaration"@.len());
    assert("class_declaration"@.len() != "record_declaration"@.len());
    assert("class_declaration"@.len() != "struct_declaration"@.len());
    assert("interface_declaration"@.len() != "enum_declaration"@.len());
    assert("interface_declaration"@.len() != "delegate_declaration"@.len());
    assert("interface_declaration"@.len() != "method_declaration"@.len());
    assert("interface_declaration"@.len() != "constructor_declaration"@.len());
    assert("interface_declaration"@.len() != "property_declaration"@.len());
    assert("interface_declaration"@[0] != "namespace_declaration"@[0]);
    assert("interface_declaration"@.len() != "file_scoped_namespace_declaration"@.len());
    assert("interface_declaration"@.len() != "record_declaration"@.len());
    assert("interface_declaration"@.len() != "struct_declaration"@.len());
    assert("enum_declaration"@.len() != "delegate_declaration"@.len());
    assert("enum_declaration"@.len() != "method_declaration"@.len());
    assert("enum_declaration"@.len() != "constructor_declaration"@.len());
    assert("enum_declaration"@.len() != "property_declaration"@.len());
    assert("enum_declaration"@.len() != "namespace_declaration"@.len());
    assert("enum_declaration"@.len() != "file_scoped_namespace_declaration"@.len());
    assert("enum_declaration"@.len() != "record_declaration"@.len());
    assert("enum_declaration"@.len() != "struct_declaration"@.len());
    assert("delegate_declaration"@.len() != "method_declaration"@.len());
    assert("delegate_declaration"@.len() != "constructor_declaration"@.len());
    assert("delegate_declaration"@[0] != "property_declaration"@[0]);
    assert("delegate_declaration"@.len() != "namespace_declaration"@.len());
    assert("delegate_declaration"@.len() != "file_scoped_namespace_declaration"@.len());
    assert("delegate_declaration"@.len() != "record_declaration"@.len());
    assert("delegate_declaration"@.len() != "struct_declaration"@.len());
    assert("method_declaration"@.len() != "constructor_declaration"@.len());
    assert("method_declaration"@.len() != "property_declaration"@.len());
    assert("method_declaration"@.len() != "namespace_declaration"@.len());
    assert("method_declaration"@.len() != "file_scoped_namespace_declaration"@.len());
    assert("method_declaration"@[0] != "record_declaration"@[0]);
    assert("method_declaration"@[0] != "struct_declaration"@[0]);
    assert("constructor_declaration"@.len() != "property_declaration"@.len());
    assert("constructor_declaration"@.len() != "namespace_declaration"@.len());
    assert("constructor_declaration"@.len() != "file_scoped_namespace_declaration"@.len());
    assert("constructor_declaration"@.len() != "record_declaration"@.len());
    assert("constructor_declaration"@.len() != "struct_declaration"@.len());
    assert("property_declaration"@.len() != "namespace_declaration"@.len());
    assert("property_declaration"@.len() != "file_scoped_namespace_declaration"@.len());
    assert("property_declaration"@.len() != "record_declaration"@.len());
    assert("property_declaration"@.len() != "struct_declaration"@.len());
    assert("namespace_declaration"@.len() != "file_scoped_namespace_declaration"@.len());
    assert("namespace_declaration"@.len() != "record_declaration"@.len());
    assert("namespace_declaration"@.len() != "struct_declaration"@.len());
    assert("file_scoped_namespace_declaration"@.len() != "record_declaration"@.len());
    assert("file_scoped_namespace_declaration"@.len() != "struct_declaration"@.len());
    assert("record_declaration"@[0] != "struct_declaration"@[0]);
}

} // verus!
