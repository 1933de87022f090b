//! Symbol extraction on concrete sources.

use neex::symbols::{extract_symbols, SymbolKind};

#[test]
fn test_export_function() {
    let code = r#"export function formatDate(d) { return d.toString(); }"#.to_string();
    let symbols = extract_symbols(&code, false).unwrap();

    assert_eq!(symbols.exports.len(), 1);
    assert_eq!(symbols.exports[0].name, "formatDate");
    assert_eq!(symbols.exports[0].kind, SymbolKind::Function);
    assert!(!symbols.exports[0].hash.is_empty());
}

#[test]
fn test_export_const() {
    let code = r#"export const VERSION = "1.0.0";"#.to_string();
    let symbols = extract_symbols(&code, false).unwrap();

    assert_eq!(symbols.exports.len(), 1);
    assert_eq!(symbols.exports[0].name, "VERSION");
    assert_eq!(symbols.exports[0].kind, SymbolKind::Const);
}

#[test]
fn test_export_class() {
    let code = r#"export class User { constructor() {} }"#.to_string();
    let symbols = extract_symbols(&code, false).unwrap();

    assert_eq!(symbols.exports.len(), 1);
    assert_eq!(symbols.exports[0].name, "User");
    assert_eq!(symbols.exports[0].kind, SymbolKind::Class);
}

#[test]
fn test_multiple_exports() {
    let code = r#"
            export function foo() {}
            export const BAR = 1;
            export class Baz {}
        "#
    .to_string();
    let symbols = extract_symbols(&code, false).unwrap();

    assert_eq!(symbols.exports.len(), 3);
}

#[test]
fn test_import_named() {
    let code = r#"import { formatDate, formatNumber } from "@my/utils";"#.to_string();
    let symbols = extract_symbols(&code, false).unwrap();

    assert_eq!(symbols.imports.len(), 1);
    assert_eq!(symbols.imports[0].from, "@my/utils");
    assert_eq!(symbols.imports[0].symbols, vec!["formatDate", "formatNumber"]);
}

#[test]
fn test_import_default() {
    let code = r#"import React from "react";"#.to_string();
    let symbols = extract_symbols(&code, false).unwrap();

    assert_eq!(symbols.imports.len(), 1);
    assert_eq!(symbols.imports[0].from, "react");
    assert_eq!(symbols.imports[0].symbols, vec!["React"]);
}

#[test]
fn test_typescript_interface() {
    let code = r#"export interface User { name: string; }"#.to_string();
    let symbols = extract_symbols(&code, true).unwrap();

    assert_eq!(symbols.exports.len(), 1);
    assert_eq!(symbols.exports[0].name, "User");
    assert_eq!(symbols.exports[0].kind, SymbolKind::Interface);
}

#[test]
fn test_hash_changes_with_content() {
    let code1 = r#"export function foo() { return 1; }"#.to_string();
    let code2 = r#"export function foo() { return 2; }"#.to_string();

    let s1 = extract_symbols(&code1, false).unwrap();
    let s2 = extract_symbols(&code2, false).unwrap();

    assert_ne!(s1.exports[0].hash, s2.exports[0].hash);
}

#[test]
fn namespace_import_records_alias() {
    let code = r#"import * as utils from "@my/utils";"#.to_string();
    let symbols = extract_symbols(&code, false).unwrap();
    assert_eq!(symbols.imports.len(), 1);
    assert_eq!(symbols.imports[0].symbols, vec!["* as utils"]);
}

#[test]
fn export_clause_names_symbols() {
    let code = r#"
            const a = 1;
            const b = 2;
            export { a, b };
        "#
    .to_string();
    let symbols = extract_symbols(&code, false).unwrap();
    assert_eq!(symbols.exports.len(), 2);
    assert_eq!(symbols.exports[0].name, "a");
    assert_eq!(symbols.exports[1].name, "b");
    assert!(symbols.exports[0].hash.is_empty());
}

#[test]
fn export_default_uses_synthetic_name() {
    let code = r#"export default 42;"#.to_string();
    let symbols = extract_symbols(&code, false).unwrap();
    assert_eq!(symbols.exports.len(), 1);
    assert_eq!(symbols.exports[0].name, "default");
    assert_eq!(symbols.exports[0].kind, SymbolKind::Variable);
}

#[test]
fn symbol_digest_is_sixteen_hex_chars() {
    let code = r#"export function foo() { return 1; }"#.to_string();
    let s = extract_symbols(&code, false).unwrap();
    assert_eq!(s.exports[0].hash.len(), 16);
    assert!(s.exports[0].hash.chars().all(|c| c.is_ascii_hexdigit()));
}

#[test]
fn symbol_line_numbers_are_one_based() {
    let code = "export function foo() {}\nexport function bar() {}".to_string();
    let s = extract_symbols(&code, false).unwrap();
    assert_eq!(s.exports[0].line, 1);
    assert_eq!(s.exports[1].line, 2);
}

#[test]
fn lexical_declaration_exports_each_declarator() {
    let code = "export const a = 1, b = 2;".to_string();
    let s = extract_symbols(&code, false).unwrap();
    assert_eq!(s.exports.len(), 2);
    assert_eq!(s.exports[0].name, "a");
    assert_eq!(s.exports[1].name, "b");
    assert_eq!(s.exports[0].kind, SymbolKind::Const);
}

#[test]
fn single_quoted_module_specifier_is_trimmed() {
    let code = "import { x } from '@my/utils';".to_string();
    let s = extract_symbols(&code, false).unwrap();
    assert_eq!(s.imports[0].from, "@my/utils");
}

#[test]
fn type_alias_and_enum_exports() {
    let code = "export type Id = string;\nexport enum Color { Red, Green }".to_string();
    let s = extract_symbols(&code, true).unwrap();
    assert_eq!(s.exports.len(), 2);
    assert_eq!(s.exports[0].kind, SymbolKind::Type);
    assert_eq!(s.exports[1].kind, SymbolKind::Enum);
}
