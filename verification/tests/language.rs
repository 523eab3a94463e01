use cfind::config::SupportedLanguage;
use cfind::language::{parse_source, symbols_in_tree, KindNames, SyntaxNode};
use cfind::Symbol;

fn symbols(source: &[u8], language: SupportedLanguage) -> Vec<Symbol> {
    parse_source(source, language).unwrap()
}

fn declared(source: &[u8], language: SupportedLanguage) -> Vec<Symbol> {
    cfind::declared::parse_source(source, language).unwrap()
}

#[test]
fn extracts_rust_types_and_methods() {
    let source = br#"
            struct DatabaseContext;
            impl DatabaseContext {
                fn connect(&self) {}
            }
        "#;
    let symbols = declared(source, SupportedLanguage::Rust);
    assert!(symbols
        .iter()
        .any(|symbol| symbol.name == "DatabaseContext" && symbol.kind == "struct"));
    assert!(symbols
        .iter()
        .any(|symbol| symbol.name == "connect" && symbol.kind == "function"));
}

#[test]
fn extracts_csharp_records_and_methods() {
    let source = br#"
            public record DatabaseEntity(int Id);
            public class DatabaseContext {
                public void Save() {}
            }
        "#;
    let symbols = declared(source, SupportedLanguage::CSharp);
    assert!(symbols
        .iter()
        .any(|symbol| symbol.name == "DatabaseEntity" && symbol.kind == "record"));
    assert!(symbols
        .iter()
        .any(|symbol| symbol.name == "Save" && symbol.kind == "method"));
}

#[test]
fn extracts_typescript_interfaces_and_arrow_functions() {
    let source = br#"
            interface DatabaseEntity { id: number }
            const loadDatabase = () => 1;
        "#;
    let symbols = declared(source, SupportedLanguage::TypeScript);
    assert!(symbols
        .iter()
        .any(|symbol| symbol.name == "DatabaseEntity" && symbol.kind == "interface"));
    assert!(symbols
        .iter()
        .any(|symbol| symbol.name == "loadDatabase" && symbol.kind == "function"));
}

#[test]
fn normalizes_classes_records_and_structs_to_class() {
    let source = br#"
            namespace Acme.Data {
                public record DatabaseEntity(int Id);
                public struct DatabaseValue {}
                public class DatabaseContext {
                    public void Save() {}
                }
            }
        "#;
    let symbols = symbols(source, SupportedLanguage::CSharp);
    assert!(symbols
        .iter()
        .any(|symbol| symbol.name == "DatabaseEntity" && symbol.kind == "class"));
    assert!(symbols
        .iter()
        .any(|symbol| symbol.name == "DatabaseValue" && symbol.kind == "class"));
    assert!(symbols
        .iter()
        .all(|symbol| !matches!(symbol.kind.as_str(), "record" | "struct")));
    assert!(symbols
        .iter()
        .any(|symbol| symbol.name == "Save" && symbol.kind == "method"));
    assert!(symbols
        .iter()
        .any(|symbol| symbol.name == "Acme.Data" && symbol.kind == "namespace"));
    assert!(symbols.iter().any(|symbol| {
        symbol.name == "DatabaseContext"
            && symbol.namespace.as_deref() == Some("Acme.Data")
            && symbol.qualified_name == "Acme.Data.DatabaseContext"
    }));
}

#[test]
fn applies_file_scoped_namespaces_to_following_symbols() {
    let source = b"namespace Acme.Data;\npublic class DatabaseContext {}\n";
    let symbols = symbols(source, SupportedLanguage::CSharp);
    assert!(symbols.iter().any(|symbol| {
        symbol.name == "DatabaseContext"
            && symbol.namespace.as_deref() == Some("Acme.Data")
            && symbol.qualified_name == "Acme.Data.DatabaseContext"
    }));
}

#[test]
fn qualifies_nested_definitions_with_the_full_enclosing_chain() {
    let source = br#"
            namespace Acme.Tools {
                public class Container {
                    public class PaymentProcessor {
                        public void Run() {}
                    }
                }
            }
        "#;
    let symbols = symbols(source, SupportedLanguage::CSharp);
    let run = symbols.iter().find(|symbol| symbol.name == "Run").unwrap();
    assert_eq!(run.parent.as_deref(), Some("PaymentProcessor"));
    assert_eq!(run.qualified_name, "Acme.Tools.Container.PaymentProcessor.Run");
}

#[test]
fn extracts_functions_without_indexing_plain_variables() {
    let source = br#"
            class DatabaseContext { connect() {} }
            const loadDatabase = () => 1;
            const timeout = 30;
        "#;
    let symbols = symbols(source, SupportedLanguage::JavaScript);
    assert!(symbols.iter().any(|symbol| symbol.name == "DatabaseContext"));
    assert!(symbols.iter().any(|symbol| symbol.name == "loadDatabase"));
    assert!(symbols.iter().all(|symbol| symbol.name != "timeout"));
}

#[test]
fn extracts_types_and_methods() {
    let source = br#"
            struct DatabaseContext;
            impl DatabaseContext {
                fn connect(&self) {}
            }
        "#;
    let symbols = symbols(source, SupportedLanguage::Rust);
    assert!(symbols
        .iter()
        .any(|symbol| symbol.name == "DatabaseContext" && symbol.kind == "struct"));
    assert!(symbols
        .iter()
        .any(|symbol| symbol.name == "connect" && symbol.kind == "function"));
}

#[test]
fn extracts_interfaces_and_arrow_functions() {
    let source = br#"
            interface DatabaseEntity { id: number }
            declare function createDatabase(): DatabaseEntity;
            const loadDatabase = () => 1;
        "#;
    let symbols = symbols(source, SupportedLanguage::TypeScript);
    assert!(symbols
        .iter()
        .any(|symbol| symbol.name == "DatabaseEntity" && symbol.kind == "interface"));
    assert!(symbols
        .iter()
        .any(|symbol| symbol.name == "loadDatabase" && symbol.kind == "function"));
    assert!(symbols
        .iter()
        .any(|symbol| symbol.name == "createDatabase" && symbol.kind == "function"));
}

#[test]
fn rust_methods_inside_impl_blocks_keep_their_own_name_and_nested_items_use_colons() {
    let source = b"fn outer() {\n    fn inner() {}\n}\nimpl Widget {\n    fn draw(&self) {}\n}\n";
    let symbols = symbols(source, SupportedLanguage::Rust);
    let inner = symbols.iter().find(|symbol| symbol.name == "inner").unwrap();
    assert_eq!(inner.qualified_name, "outer::inner");
    assert_eq!(inner.parent.as_deref(), Some("outer"));
    assert_eq!(inner.start_line, 2);
    assert_eq!(inner.start_column, 5);
    let draw = symbols.iter().find(|symbol| symbol.name == "draw").unwrap();
    assert_eq!(draw.qualified_name, "draw");
    assert_eq!(draw.parent, None);
}

#[test]
fn nested_namespaces_are_named_by_their_full_name() {
    let source = b"namespace Acme { namespace Tools { class Box {} } namespace Acme.Data { } }\n";
    let symbols = symbols(source, SupportedLanguage::CSharp);
    let names: Vec<&str> = symbols
        .iter()
        .filter(|symbol| symbol.kind == "namespace")
        .map(|symbol| symbol.name.as_str())
        .collect();
    assert_eq!(names, ["Acme", "Acme.Tools", "Acme.Data"]);
    let class = symbols.iter().find(|symbol| symbol.name == "Box").unwrap();
    assert_eq!(class.qualified_name, "Acme.Tools.Box");
    assert_eq!(class.namespace.as_deref(), Some("Acme.Tools"));
}

#[test]
fn tsx_files_are_parsed_with_jsx() {
    let source = b"const View = () => <div>hi</div>;\n";
    let symbols = cfind::language::parse_file_source(source, SupportedLanguage::TypeScript, "web/view.tsx").unwrap();
    assert!(symbols
        .iter()
        .any(|symbol| symbol.name == "View" && symbol.kind == "function"));
}

fn node(kind: &str, name: Option<(usize, usize)>, row: usize, children: Vec<SyntaxNode>) -> SyntaxNode {
    SyntaxNode {
        kind: kind.to_owned(),
        start_row: row,
        start_column: 0,
        end_row: row,
        end_column: 10,
        name,
        value_kind: None,
        children,
    }
}

#[test]
fn symbols_follow_a_given_syntax_tree() {
    let source = b"namespace Acme.Data;\nclass Ctx { void Run() {} }\n";
    let text = std::str::from_utf8(source).unwrap();
    let span = |word: &str| {
        let start = text.find(word).unwrap();
        Some((start, start + word.len()))
    };
    let tree = node(
        "compilation_unit",
        None,
        0,
        vec![
            node("file_scoped_namespace_declaration", span("Acme.Data"), 0, vec![]),
            node(
                "class_declaration",
                span("Ctx"),
                1,
                vec![node("method_declaration", span("Run"), 1, vec![])],
            ),
        ],
    );
    let symbols = symbols_in_tree(KindNames::Normalized, SupportedLanguage::CSharp, source, &tree);
    let described: Vec<(&str, &str, &str, Option<&str>, Option<&str>, usize)> = symbols
        .iter()
        .map(|symbol| {
            (
                symbol.kind.as_str(),
                symbol.name.as_str(),
                symbol.qualified_name.as_str(),
                symbol.namespace.as_deref(),
                symbol.parent.as_deref(),
                symbol.start_line,
            )
        })
        .collect();
    assert_eq!(
        described,
        [
            ("namespace", "Acme.Data", "Acme.Data", None, None, 1),
            ("class", "Ctx", "Acme.Data.Ctx", Some("Acme.Data"), None, 2),
            ("method", "Run", "Acme.Data.Ctx.Run", Some("Acme.Data"), Some("Ctx"), 2),
        ]
    );
    let declared = symbols_in_tree(KindNames::Declared, SupportedLanguage::CSharp, source, &tree);
    assert_eq!(declared.len(), 2);
    assert_eq!(declared[0].qualified_name, "Ctx");
    let out_of_range = node("class_declaration", Some((40, 400)), 0, vec![]);
    assert!(symbols_in_tree(KindNames::Normalized, SupportedLanguage::CSharp, source, &out_of_range).is_empty());
}

#[test]
fn symbols_come_in_document_order_with_ordered_lines() {
    let source = b"namespace Acme {\n  class Box {\n    void Open() {\n    }\n  }\n}\nclass Loose {}\n";
    let symbols = symbols(source, SupportedLanguage::CSharp);
    let kinds: Vec<(&str, &str)> = symbols
        .iter()
        .map(|symbol| (symbol.kind.as_str(), symbol.name.as_str()))
        .collect();
    assert_eq!(
        kinds,
        [("namespace", "Acme"), ("class", "Box"), ("method", "Open"), ("class", "Loose")]
    );
    for symbol in &symbols {
        assert!(symbol.start_line >= 1 && symbol.start_line <= symbol.end_line);
        assert!(["namespace", "class", "method"].contains(&symbol.kind.as_str()));
    }
    let namespace = &symbols[0];
    assert_eq!((namespace.start_line, namespace.end_line), (1, 6));
    assert_eq!(namespace.parent, None);
    assert_eq!(namespace.namespace, None);
    assert_eq!(symbols[2].parent.as_deref(), Some("Box"));
}
