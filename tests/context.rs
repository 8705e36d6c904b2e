use context_bundle::assemble::build_context;
use context_bundle::assemble::join_all_bodies;
use context_bundle::assemble::truncate_to_budget;
use context_bundle::assemble::use_full_body;
use context_bundle::classify::classify_file;
use context_bundle::classify::is_source_file_name;
use context_bundle::classify::manifest_record;
use context_bundle::classify::sort_by_tier;
use context_bundle::classify::FileRecord;
use context_bundle::collapse::replace_blocks_not_calling_target_function;
use context_bundle::pattern::build_patterns;
use context_bundle::pattern::extract_function_body;
use context_bundle::pattern::split_symbol_path;
use context_bundle::pattern::PatternSet;
use context_bundle::text::normalize;
use context_bundle::text::occurs;
use context_bundle::text::white_space;

fn patterns(path: &str) -> PatternSet {
    build_patterns(path).unwrap()
}

fn record(tier: u8, path: &str, summary: &str, full: Option<&str>) -> FileRecord {
    FileRecord {
        tier,
        path: path.to_string(),
        summary: summary.to_string(),
        full_body: full.map(|s| s.to_string()),
    }
}

#[test]
fn normalize_trims_lines_and_drops_blank_ones() {
    assert_eq!(normalize("  fn a() {  \n\n\t x \r\n   \n}\n"), "fn a() {\nx\n}");
    assert_eq!(normalize(""), "");
    assert_eq!(normalize(" \n\t\n"), "");
    assert_eq!(normalize("\u{3000}a\u{a0}"), "a");
}

#[test]
fn normalize_is_idempotent_on_examples() {
    for s in ["  a \n\n b  c \n", "x", "\n\n", " { \n } \r\n"] {
        let once = normalize(s);
        assert_eq!(normalize(&once), once);
    }
}

#[test]
fn split_symbol_path_on_separators() {
    assert_eq!(split_symbol_path("alpha::beta::target"), vec!["alpha", "beta", "target"]);
    assert_eq!(split_symbol_path("main"), vec!["main"]);
    assert_eq!(split_symbol_path(""), vec![""]);
    assert_eq!(split_symbol_path(":::x"), vec!["", ":x"]);
    assert_eq!(split_symbol_path("a::"), vec!["a", ""]);
}

#[test]
fn build_patterns_derives_escaped_sources() {
    let ps = patterns("alpha::beta::do.it");
    assert_eq!(ps.function_name, "do.it");
    assert_eq!(ps.definition.source(), r"fn\s+do\.it\s*[<(]");
    assert_eq!(ps.caller.source(), r"\bdo\.it\s*[:<(]");
    assert_eq!(ps.modules.len(), 2);
    assert_eq!(ps.modules[0].name, "alpha");
    assert_eq!(ps.modules[0].decl.source(), r"\bmod\s+alpha\s*;");
    assert_eq!(ps.modules[1].decl.source(), r"\bmod\s+beta\s*;");
}

#[test]
fn build_patterns_defaults_to_main_for_empty_path() {
    let ps = patterns("");
    assert_eq!(ps.function_name, "main");
    assert!(ps.modules.is_empty());
}

#[test]
fn collapse_keeps_only_calling_blocks() {
    let ps = patterns("target");
    let text = "fn a() { x }\nfn b() { target(1) }\nfn c() { { y } }";
    let out = replace_blocks_not_calling_target_function(text, None, &ps.caller);
    assert_eq!(out, "fn a() {...}\nfn b() { target(1) }\nfn c() {...}");
}

#[test]
fn collapse_keeps_block_after_definition() {
    let ps = patterns("target");
    let text = "fn other() { a }\nfn target() { b }\nfn last() { c }";
    let def = text.find("fn target").unwrap();
    let out = replace_blocks_not_calling_target_function(text, Some(def), &ps.caller);
    assert_eq!(out, "fn other() {...}\nfn target() { b }\nfn last() {...}");
}

#[test]
fn collapse_without_blocks_is_identity() {
    let ps = patterns("target");
    let text = "use a::b;\nconst X: u8 = 1;";
    assert_eq!(replace_blocks_not_calling_target_function(text, None, &ps.caller), text);
}

#[test]
fn collapse_copies_unterminated_block() {
    let ps = patterns("target");
    let text = "fn a() { x }\nfn b() { y";
    let out = replace_blocks_not_calling_target_function(text, None, &ps.caller);
    assert_eq!(out, "fn a() {...}\nfn b() { y");
}

#[test]
fn collapse_counts_characters_not_bytes() {
    let ps = patterns("target");
    let text = "é { ü }\nfn target() { z }";
    let def = text.chars().collect::<Vec<char>>().iter().position(|c| *c == 'f').unwrap();
    let out = replace_blocks_not_calling_target_function(text, Some(def), &ps.caller);
    assert_eq!(out, "é {...}\nfn target() { z }");
}

#[test]
fn definition_in_target_module_is_tier_zero() {
    let ps = patterns("alpha::beta::target");
    let content = "fn target(x: u32) {\n    x + 1\n}\n\nfn other() {\n    let y = 2;\n}\n";
    let r = classify_file("src/alpha/beta/worker.rs", content, &ps);
    assert_eq!(r.tier, 0);
    assert_eq!(r.path, "src/alpha/beta/worker.rs");
    assert_eq!(r.summary, "fn target(x: u32) {\nx + 1\n}\nfn other() {...}");
    assert_eq!(
        r.full_body.as_deref(),
        Some("fn target(x: u32) {\nx + 1\n}\nfn other() {\nlet y = 2;\n}")
    );
}

#[test]
fn caller_in_other_module_is_tier_one() {
    let ps = patterns("alpha::beta::target");
    let content = "mod util;\nfn run() {\n    target(1);\n}\nfn idle() {\n}\n";
    let r = classify_file("src/gamma/caller.rs", content, &ps);
    assert_eq!(r.tier, 1);
    assert_eq!(r.summary, "mod util;\nfn run() {\ntarget(1);\n}\nfn idle() {...}");
    assert_eq!(r.full_body.as_deref(), Some("mod util;\nfn run() {\ntarget(1);\n}\nfn idle() {\n}"));
}

#[test]
fn module_declarations_stand_for_path() {
    let ps = patterns("alpha::beta::target");
    let content = "mod alpha;\nmod beta;\nfn target() { 1 }\nfn f() { 2 }";
    let r = classify_file("src/lib.rs", content, &ps);
    assert_eq!(r.tier, 0);
    assert_eq!(r.summary, "mod alpha;\nmod beta;\nfn target() { 1 }\nfn f() {...}");
}

#[test]
fn same_name_in_other_module_is_tier_three() {
    let ps = patterns("alpha::beta::target");
    let content = "  fn target() { 1 }\n\nfn f() { 2 }";
    let r = classify_file("src/alpha/other.rs", content, &ps);
    assert_eq!(r.tier, 3);
    assert_eq!(r.summary, "fn target() { 1 }\nfn f() { 2 }");
    assert!(r.full_body.is_none());
}

#[test]
fn unrelated_file_is_tier_four() {
    let ps = patterns("alpha::beta::target");
    let r = classify_file("src/x.rs", "fn targets() { mytarget(2) }", &ps);
    assert_eq!(r.tier, 4);
    assert_eq!(r.summary, "fn targets() { mytarget(2) }");
    assert!(r.full_body.is_none());
}

#[test]
fn method_call_counts_as_caller() {
    let ps = patterns("target");
    let r = classify_file("src/m.rs", "fn a() { s.target() }\nfn b() { c }", &ps);
    assert_eq!(r.tier, 1);
    assert_eq!(r.summary, "fn a() { s.target() }\nfn b() {...}");
}

#[test]
fn manifest_record_is_tier_two() {
    let r = manifest_record("proj/Cargo.toml", "[package]\n".to_string());
    assert_eq!(r.tier, 2);
    assert_eq!(r.summary, "[package]\n");
    assert!(r.full_body.is_none());
}

#[test]
fn source_file_names() {
    assert!(is_source_file_name("main.rs"));
    assert!(is_source_file_name("a.rs"));
    assert!(!is_source_file_name(".rs"));
    assert!(!is_source_file_name("main.rsx"));
    assert!(!is_source_file_name("Cargo.toml"));
}

#[test]
fn sort_by_tier_is_stable() {
    let rs = vec![
        record(4, "a", "", None),
        record(1, "b", "", None),
        record(0, "c", "", None),
        record(1, "d", "", None),
        record(4, "e", "", None),
        record(2, "f", "", None),
    ];
    let sorted = sort_by_tier(&rs);
    let order: Vec<(u8, String)> = sorted.iter().map(|r| (r.tier, r.path.clone())).collect();
    let expected: Vec<(u8, String)> =
        vec![(0, "c"), (1, "b"), (1, "d"), (2, "f"), (4, "a"), (4, "e")]
            .into_iter()
            .map(|(t, p)| (t, p.to_string()))
            .collect();
    assert_eq!(order, expected);
    let again = sort_by_tier(&rs);
    let tiers: Vec<u8> = again.iter().map(|r| r.tier).collect();
    assert_eq!(tiers, vec![0, 1, 1, 2, 4, 4]);
}

#[test]
fn over_budget_draft_uses_summaries() {
    let full = "x".repeat(2048);
    let rs = vec![record(0, "a.rs", "s", Some(&full)), record(4, "b.rs", "t", None)];
    assert!(!use_full_body(&rs, 2, 0, 1024));
    let mut out = String::new();
    join_all_bodies(1 << 20, &mut out, 1 << 20, &rs, 2);
    assert!(!out.contains(&full));
    let mut out2 = String::new();
    join_all_bodies(1024, &mut out2, 0, &rs, 2);
    assert_eq!(
        out2,
        "\n\n\n////// Top of File: a.rs //////\n\ns\n\n////// End of File: a.rs //////\n\n\n\
         \n\n\n////// Top of File: b.rs //////\n\nt\n\n////// End of File: b.rs //////\n\n\n"
    );
}

#[test]
fn draft_at_budget_uses_full_bodies() {
    let rs = vec![
        record(0, "a.rs", "s", Some("0123456789")),
        record(3, "b.rs", &"y".repeat(100), None),
        record(2, "c", "é", None),
    ];
    assert!(use_full_body(&rs, 2, 5, 17));
    assert!(!use_full_body(&rs, 2, 6, 17));
    assert!(!use_full_body(&rs, 2, 18, 17));
    let mut out = String::from("P");
    join_all_bodies(17, &mut out, 5, &rs, 2);
    assert!(out.starts_with("P\n\n\n////// Top of File: a.rs //////\n\n0123456789\n\n"));
}

#[test]
fn truncate_cuts_at_characters() {
    assert_eq!(truncate_to_budget("héllo".to_string(), 2), "hé");
    assert_eq!(truncate_to_budget("abc".to_string(), 3), "abc");
    assert_eq!(truncate_to_budget("abc".to_string(), 0), "");
}

#[test]
fn missing_manifest_adds_note() {
    let rs = vec![record(1, "src/a.rs", "call", Some("call full"))];
    let out = build_context("pre\n", rs, "Cargo.toml", None, 32 * 1024);
    assert!(out.starts_with("pre\nUnable to find Cargo.toml, this is probably a new project\n"));
    assert!(!out.contains("Top of File: Cargo.toml"));
    assert!(out.contains("call full"));
}

#[test]
fn manifest_is_placed_after_callers() {
    let rs = vec![
        record(4, "src/z.rs", "zz", None),
        record(1, "src/a.rs", "call", Some("call full")),
    ];
    let out = build_context("", rs, "Cargo.toml", Some("[package]".to_string()), 32 * 1024);
    let a = out.find("Top of File: src/a.rs").unwrap();
    let m = out.find("Top of File: Cargo.toml").unwrap();
    let z = out.find("Top of File: src/z.rs").unwrap();
    assert!(a < m && m < z);
    assert!(!out.contains("Unable to find"));
}

#[test]
fn context_respects_budget() {
    let rs = vec![record(0, "src/a.rs", &"s".repeat(2000), Some(&"f".repeat(5000)))];
    let out = build_context("preamble", rs, "Cargo.toml", None, 1024);
    assert_eq!(out.chars().count(), 1024);
    assert!(!out.contains("ffff"));
}

#[test]
fn extract_function_body_from_header() {
    let text = "use x;\nfn go(a: u8) { a }\nfn z() {}";
    assert_eq!(extract_function_body(text, "go").unwrap(), "fn go(a: u8) { a }\nfn z() {}");
    assert_eq!(extract_function_body(text, "none").unwrap(), "");
    assert_eq!(extract_function_body("fn g.o() {", "g.o").unwrap(), "fn g.o() {");
    assert_eq!(extract_function_body("fn gxo() {", "g.o").unwrap(), "");
}

#[test]
fn oversized_pattern_is_refused() {
    let name = "a".repeat(2_000_000);
    let e = build_patterns(&name).err().unwrap();
    assert!(e.pattern.starts_with(r"fn\s+aaa"));
    assert!(e.pattern.ends_with(r"aaa\s*[<(]"));
    let e2 = extract_function_body("fn a() {", &name).err().unwrap();
    assert!(e2.pattern.starts_with("fn aaa"));
}

#[test]
fn white_space_follows_unicode() {
    for c in [' ', '\t', '\n', '\r', '\u{85}', '\u{a0}', '\u{2003}', '\u{3000}'] {
        assert!(white_space(c));
        assert_eq!(white_space(c), c.is_whitespace());
    }
    for c in ['a', '_', '{', '\u{200b}'] {
        assert!(!white_space(c));
        assert_eq!(white_space(c), c.is_whitespace());
    }
}

#[test]
fn occurs_finds_contiguous_pieces() {
    assert!(occurs(&['b', 'c'], &['a', 'b', 'c']));
    assert!(occurs(&[], &['a']));
    assert!(!occurs(&['a', 'c'], &['a', 'b', 'c']));
    assert!(!occurs(&['a', 'b', 'c', 'd'], &['a', 'b', 'c']));
}
