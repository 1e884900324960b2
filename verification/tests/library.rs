use cargo_deny::hash::hash;
use cargo_deny::krate::Kid;
use cargo_deny::krate::Krate;
use cargo_deny::krate::PackageInfo;
use cargo_deny::search::binary_search;
use cargo_deny::search::contains;
use cargo_deny::search::binary_search_str;
use cargo_deny::search::contains_str;
use cargo_deny::text::str_eq;
use cargo_deny::sort::sort_by_name;
use cargo_deny::sort::Named;
use cargo_deny::text::has_slash;
use cargo_deny::text::normalize_license;
use cargo_deny::text::str_lt;
use cargo_deny::lint_deny;
use cargo_deny::lint_warn;
use cargo_deny::LintLevel;
use krates::cm;
use std::cmp::Ordering;
use std::collections::HashMap;
use std::path::PathBuf;

fn dependency(name: &str, req: &str) -> cm::Dependency {
    let text = format!(
        "{{\"name\":\"{}\",\"source\":null,\"req\":\"{}\",\"kind\":null,\"optional\":false,\
         \"uses_default_features\":true,\"features\":[],\"target\":null,\"rename\":null,\
         \"registry\":null}}",
        name, req
    );
    serde_json::from_str(&text).unwrap()
}

fn named(name: &str, req: &str) -> Named<cm::Dependency> {
    Named { name: name.to_string(), value: dependency(name, req) }
}

fn package(id: &str, license: Option<&str>, deps: Vec<Named<cm::Dependency>>) -> PackageInfo {
    PackageInfo {
        name: "pkg".to_string(),
        id: Kid { repr: id.to_string() },
        version: semver::Version::new(1, 2, 3),
        authors: vec!["someone".to_string()],
        repository: None,
        source: None,
        targets: Vec::new(),
        license: license.map(|l| l.to_string()),
        license_file: None,
        description: Some("a package".to_string()),
        manifest_path: PathBuf::from("/x/Cargo.toml"),
        dependencies: deps,
        features: HashMap::new(),
    }
}

fn krate_with_id(id: &str) -> Krate {
    Krate::from_package(package(id, None, Vec::new()))
}

#[test]
fn lint_level_default_is_warn() {
    assert_eq!(LintLevel::default(), LintLevel::Warn);
}

#[test]
fn lint_level_defaults_of_fields() {
    assert_eq!(lint_warn(), LintLevel::Warn);
    assert_eq!(lint_deny(), LintLevel::Deny);
    assert_ne!(lint_warn(), LintLevel::Allow);
}

#[test]
fn binary_search_finds_present_element() {
    let v = [1u64, 3, 5, 7, 9];
    assert_eq!(binary_search(&v, &1), Ok(0));
    assert_eq!(binary_search(&v, &5), Ok(2));
    assert_eq!(binary_search(&v, &9), Ok(4));
}

#[test]
fn binary_search_gives_insertion_point() {
    let v = [1u64, 3, 5, 7, 9];
    assert_eq!(binary_search(&v, &0), Err(0));
    assert_eq!(binary_search(&v, &4), Err(2));
    assert_eq!(binary_search(&v, &10), Err(5));
}

#[test]
fn binary_search_empty_slice() {
    let v: [u32; 0] = [];
    assert_eq!(binary_search(&v, &7), Err(0));
}

#[test]
fn binary_search_with_duplicates_finds_one_of_them() {
    let v = [2i32, 4, 4, 4, 6];
    let r = binary_search(&v, &4);
    assert!(matches!(r, Ok(1) | Ok(2) | Ok(3)));
    assert_eq!(binary_search(&v, &5), Err(4));
}

#[test]
fn binary_search_on_strings() {
    let v = vec!["alpha".to_string(), "beta".to_string(), "gamma".to_string()];
    assert_eq!(binary_search(&v, &"beta".to_string()), Ok(1));
    assert_eq!(binary_search(&v, &"delta".to_string()), Err(2));
}

#[test]
fn contains_linear_membership() {
    let v = [5u8, 1, 9];
    assert!(contains(&v, &9));
    assert!(contains(&v, &5));
    assert!(!contains(&v, &2));
    let e: [u8; 0] = [];
    assert!(!contains(&e, &0));
}

#[test]
fn search_agrees_with_contains_on_sorted_input() {
    let v = [0u16, 2, 4, 6, 8, 10];
    for q in 0u16..12 {
        assert_eq!(binary_search(&v, &q).is_ok(), contains(&v, &q));
    }
}

#[test]
fn hash_known_digests() {
    assert_eq!(hash(b""), 0x02CC_5D05);
    assert_eq!(hash(b"abc"), 0x32D1_53FF);
    assert_eq!(hash(b"Nobody inspects the spammish repetition"), 0xE229_3B2F);
}

#[test]
fn hash_depends_on_every_byte() {
    assert_ne!(hash(b"abc"), hash(b"abd"));
    assert_eq!(hash(b"0123456789abcdef0123"), 0x6350_964E);
}

#[test]
fn str_lt_orders_lexicographically() {
    assert!(str_lt("a", "b"));
    assert!(str_lt("a", "ab"));
    assert!(str_lt("", "a"));
    assert!(!str_lt("b", "a"));
    assert!(!str_lt("abc", "abc"));
    assert!(!str_lt("", ""));
    assert!(str_lt("Z", "a"));
    assert!(str_lt("z", "é"));
}

#[test]
fn license_slash_becomes_or() {
    assert_eq!(normalize_license("MIT/Apache-2.0".to_string()), "MIT OR Apache-2.0");
    assert_eq!(normalize_license("A/B/C".to_string()), "A OR B OR C");
    assert_eq!(normalize_license("/".to_string()), " OR ");
}

#[test]
fn license_without_slash_unchanged() {
    assert_eq!(normalize_license("MIT OR Apache-2.0".to_string()), "MIT OR Apache-2.0");
    assert_eq!(normalize_license(String::new()), "");
}

#[test]
fn license_normalization_is_idempotent() {
    let once = normalize_license("Apache-2.0/MIT".to_string());
    assert!(!has_slash(&once));
    assert_eq!(normalize_license(once.clone()), once);
}

#[test]
fn has_slash_detects_slash() {
    assert!(has_slash("a/b"));
    assert!(!has_slash("ab"));
    assert!(!has_slash(""));
}

#[test]
fn sort_by_name_is_stable() {
    let items = vec![
        Named { name: "b".to_string(), value: 0u32 },
        Named { name: "a".to_string(), value: 1 },
        Named { name: "b".to_string(), value: 2 },
        Named { name: "a".to_string(), value: 3 },
        Named { name: "c".to_string(), value: 4 },
    ];
    let out = sort_by_name(items);
    let names: Vec<&str> = out.iter().map(|e| e.name.as_str()).collect();
    let values: Vec<u32> = out.iter().map(|e| e.value).collect();
    assert_eq!(names, vec!["a", "a", "b", "b", "c"]);
    assert_eq!(values, vec![1, 3, 0, 2, 4]);
}

#[test]
fn sort_by_name_empty() {
    let out: Vec<Named<u8>> = sort_by_name(Vec::new());
    assert!(out.is_empty());
}

#[test]
fn from_package_fixes_license_and_sorts_deps() {
    let deps = vec![named("serde", "^1"), named("anyhow", "^1"), named("log", "^0.4"), named("anyhow", "^2")];
    let k = Krate::from_package(package("pkg 1.2.3", Some("MIT/Apache-2.0"), deps));
    assert_eq!(k.license.as_deref(), Some("MIT OR Apache-2.0"));
    let names: Vec<&str> = k.deps.iter().map(|d| d.name.as_str()).collect();
    assert_eq!(names, vec!["anyhow", "anyhow", "log", "serde"]);
    assert_eq!(k.deps[0].req.to_string(), "^1");
    assert_eq!(k.deps[1].req.to_string(), "^2");
    assert_eq!(k.name, "pkg");
    assert_eq!(k.id.repr, "pkg 1.2.3");
    assert_eq!(k.version, semver::Version::new(1, 2, 3));
    assert_eq!(k.authors, vec!["someone".to_string()]);
    assert_eq!(k.description.as_deref(), Some("a package"));
    assert_eq!(k.manifest_path, PathBuf::from("/x/Cargo.toml"));
}

#[test]
fn from_package_keeps_absent_license() {
    let k = Krate::from_package(package("p", None, Vec::new()));
    assert!(k.license.is_none());
    assert!(k.deps.is_empty());
}

#[test]
fn krates_compare_by_id() {
    let a = krate_with_id("a 0.1.0");
    let b = krate_with_id("b 0.1.0");
    let a2 = krate_with_id("a 0.1.0");
    assert!(a == a2);
    assert!(a != b);
    assert_eq!(a.partial_cmp(&b), Some(Ordering::Less));
    assert_eq!(b.partial_cmp(&a), Some(Ordering::Greater));
    assert_eq!(a.partial_cmp(&a2), Some(Ordering::Equal));
    assert!(a < b);
}

#[test]
fn krate_default_is_placeholder() {
    let k = Krate::default();
    assert_eq!(k.name, "");
    assert_eq!(k.id.repr, "");
    assert_eq!(k.version, semver::Version::new(0, 1, 0));
    assert!(k.deps.is_empty());
    assert!(k.features.is_empty());
    assert_eq!(k.manifest_path, PathBuf::new());
}

fn strings(v: &[&str]) -> Vec<String> {
    v.iter().map(|s| s.to_string()).collect()
}

#[test]
fn contains_str_on_strings() {
    assert!(contains_str(&strings(&["a", "b"]), "b"));
    assert!(!contains_str(&strings(&["x"]), "y"));
    assert!(!contains_str(&[], "y"));
    assert!(!contains::<i32>(&[], &1));
}

#[test]
fn contains_str_survives_extension_and_reordering() {
    let s = strings(&["serde", "log"]);
    let mut t = strings(&["zlib", "anyhow"]);
    t.extend(s.iter().cloned());
    assert!(contains_str(&t, "log"));
    let p = strings(&["log", "serde"]);
    for q in ["log", "serde", "rand"] {
        assert_eq!(contains_str(&s, q), contains_str(&p, q));
    }
}

#[test]
fn binary_search_str_found_and_insertion_point() {
    let v = strings(&["alpha", "beta", "delta", "gamma"]);
    assert_eq!(binary_search_str(&v, "alpha"), Ok(0));
    assert_eq!(binary_search_str(&v, "gamma"), Ok(3));
    assert_eq!(binary_search_str(&v, "charlie"), Err(2));
    assert_eq!(binary_search_str(&v, "zeta"), Err(4));
    assert_eq!(binary_search_str(&v, ""), Err(0));
    assert_eq!(binary_search_str(&[], "a"), Err(0));
}

#[test]
fn binary_search_str_agrees_with_contains_str() {
    let v = strings(&["b", "d", "f"]);
    for q in ["a", "b", "c", "d", "e", "f", "g"] {
        assert_eq!(binary_search_str(&v, q).is_ok(), contains_str(&v, q));
    }
}

#[test]
fn binary_search_is_monotonic_in_query() {
    let v = [10u32, 20, 30, 40];
    let idx = |r: Result<usize, usize>| match r {
        Ok(i) => i,
        Err(i) => i,
    };
    let mut last = 0;
    for q in 0u32..50 {
        let i = idx(binary_search(&v, &q));
        assert!(last <= i);
        last = i;
    }
}

#[test]
fn str_eq_compares_characters() {
    assert!(str_eq("abc", "abc"));
    assert!(!str_eq("abc", "abd"));
    assert!(!str_eq("ab", "abc"));
    assert!(str_eq("", ""));
}
