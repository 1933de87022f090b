//! Syntax-aware and raw hashing behaviour on concrete sources.

use neex::digest::blake3_hex;
use neex::fingerprint::{cache_key, global_fingerprint, string_le, FileHash};
use neex::syntax::{hash_ast, hash_raw, is_parseable};

#[test]
fn test_comment_does_not_change_hash() {
    let path = "test.ts".to_string();

    let code1 = "const a = 1;".to_string();
    let hash1 = hash_ast(&path, &code1);

    let code2 = "const a = 1; // this is a comment".to_string();
    let hash2 = hash_ast(&path, &code2);

    assert_eq!(hash1, hash2, "Comment should not change hash!");
}

#[test]
fn test_code_change_changes_hash() {
    let path = "test.ts".to_string();

    let code1 = "const a = 1;".to_string();
    let hash1 = hash_ast(&path, &code1);

    let code2 = "const a = 2;".to_string();
    let hash2 = hash_ast(&path, &code2);

    assert_ne!(hash1, hash2, "Code change should change hash!");
}

#[test]
fn test_multiline_comment_ignored() {
    let path = "test.js".to_string();

    let code1 = "function foo() { return 1; }".to_string();
    let hash1 = hash_ast(&path, &code1);

    let code2 = "/* Big comment */\nfunction foo() { return 1; }\n// Another comment".to_string();
    let hash2 = hash_ast(&path, &code2);

    assert_eq!(hash1, hash2, "Comments should not change hash!");
}

#[test]
fn whitespace_only_edit_keeps_hash() {
    let path = "test.ts".to_string();
    let a = hash_ast(&path, &"const a = 1;".to_string());
    let b = hash_ast(&path, &"const  a   =    1;".to_string());
    assert_eq!(a, b);
}

#[test]
fn identifier_rename_changes_hash() {
    let path = "test.ts".to_string();
    let a = hash_ast(&path, &"const a = 1;".to_string());
    let b = hash_ast(&path, &"const b = 1;".to_string());
    assert_ne!(a, b);
}

#[test]
fn parseable_extensions() {
    for p in ["a.js", "a.jsx", "a.ts", "a.tsx", "a.mjs", "a.mts", "a.cjs", "a.cts"] {
        assert!(is_parseable(&p.to_string()), "{p}");
    }
    for p in ["a.rs", "a.json", "a.tsv", "Makefile", "a"] {
        assert!(!is_parseable(&p.to_string()), "{p}");
    }
    // a bare dot-file has no extension
    for p in [".ts", "src/.tsx", ".js"] {
        assert!(!is_parseable(&p.to_string()), "{p}");
    }
}

#[test]
fn raw_hash_is_not_the_input() {
    let h = hash_raw(&"hello".to_string());
    assert_eq!(h.len(), 64);
    assert_ne!(h, "hello");
    assert!(h.chars().all(|c| c.is_ascii_hexdigit()));
}

#[test]
fn raw_hash_used_for_other_files() {
    let content = "plain text".to_string();
    let via_ast = hash_ast(&"notes.txt".to_string(), &content);
    let raw = hash_raw(&content);
    assert_eq!(via_ast, raw);
}

#[test]
fn blake3_is_deterministic_and_sensitive() {
    let a = blake3_hex(&vec![1u8, 2, 3]);
    let b = blake3_hex(&vec![1u8, 2, 3]);
    let c = blake3_hex(&vec![1u8, 2, 4]);
    assert_eq!(a, b);
    assert_ne!(a, c);
    assert_eq!(a.len(), 64);
}

fn fh(path: &str, hash: &str) -> FileHash {
    FileHash { path: path.to_string(), hash: hash.to_string(), size: 1 }
}

#[test]
fn fingerprint_is_path_order_independent() {
    let one = vec![fh("/r/a.ts", "aaaa"), fh("/r/b.ts", "bbbb"), fh("/r/c.ts", "cccc")];
    let two = vec![fh("/r/c.ts", "cccc"), fh("/r/a.ts", "aaaa"), fh("/r/b.ts", "bbbb")];
    let f1 = global_fingerprint(one);
    let f2 = global_fingerprint(two);
    assert_eq!(f1, f2);
    assert_eq!(f1.len(), 64);
}

#[test]
fn fingerprint_changes_with_content() {
    let one = vec![fh("/r/a.ts", "aaaa")];
    let two = vec![fh("/r/a.ts", "aaab")];
    assert_ne!(global_fingerprint(one), global_fingerprint(two));
}

#[test]
fn cache_keys_identical_across_runs() {
    let scan1 = vec![fh("/r/b.ts", "2222"), fh("/r/a.ts", "1111")];
    let scan2 = vec![fh("/r/a.ts", "1111"), fh("/r/b.ts", "2222")];
    let k1 = cache_key(&"build".to_string(), &global_fingerprint(scan1));
    let k2 = cache_key(&"build".to_string(), &global_fingerprint(scan2));
    assert_eq!(k1, k2);
    assert!(k1.starts_with("build:"));
    assert_eq!(k1.len(), "build:".len() + 16);
}

#[test]
fn path_order_is_lexicographic() {
    assert!(string_le(&"a".to_string(), &"b".to_string()));
    assert!(string_le(&"a".to_string(), &"ab".to_string()));
    assert!(!string_le(&"b".to_string(), &"ab".to_string()));
    assert!(string_le(&"".to_string(), &"a".to_string()));
    assert!(string_le(&"abc".to_string(), &"abc".to_string()));
}

#[test]
fn tsx_sources_parse_with_their_own_grammar() {
    let path = "app.tsx".to_string();
    let a = hash_ast(&path, &"const x = <div>hi</div>;".to_string());
    let b = hash_ast(&path, &"const x = <div>hi</div>; // note".to_string());
    assert_eq!(a, b);
}

#[test]
fn empty_file_set_still_fingerprints() {
    let f = global_fingerprint(Vec::new());
    assert_eq!(f.len(), 64);
}
