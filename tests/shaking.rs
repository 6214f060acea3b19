use bundler::{tree_shake, Graph, ModuleInfo};

fn strings(v: &[&str]) -> Vec<String> {
    v.iter().map(|s| s.to_string()).collect()
}

fn module(id: &str, imports: &[&str], exports: &[&str], used: &[&str]) -> ModuleInfo {
    ModuleInfo {
        id: id.to_string(),
        imports: strings(imports),
        exports: strings(exports),
        used_symbols: strings(used),
    }
}

fn sorted(mut v: Vec<String>) -> Vec<String> {
    v.sort();
    v
}

#[test]
fn entry_exports_always_kept() {
    let g = Graph {
        modules: vec![module("src/main.ts", &[], &["api", "helper"], &["api", "helper", "local"])],
    };
    let kept = sorted(tree_shake(&g, "src/main.ts"));
    assert_eq!(kept, vec!["src/main.ts::api".to_string(), "src/main.ts::helper".to_string()]);
}

#[test]
fn entry_export_kept_without_any_use() {
    let g = Graph { modules: vec![module("src/main.ts", &[], &["unused"], &[])] };
    assert_eq!(tree_shake(&g, "src/main.ts"), vec!["src/main.ts::unused".to_string()]);
}

#[test]
fn three_module_scenario_drops_sub() {
    let g = Graph {
        modules: vec![
            module("src/entry.ts", &["./math.ts"], &[], &["add"]),
            module("src/math.ts", &[], &["add", "sub"], &["add", "sub"]),
        ],
    };
    let kept = tree_shake(&g, "src/entry.ts");
    assert!(kept.contains(&"src/math.ts::add".to_string()));
    assert!(!kept.contains(&"src/math.ts::sub".to_string()));
    assert_eq!(kept, vec!["src/math.ts::add".to_string()]);
    assert!(!kept.iter().any(|k| k.starts_with("src/entry.ts::")));
}

#[test]
fn demand_travels_through_imports() {
    let g = Graph {
        modules: vec![
            module("src/e.ts", &["./f.ts"], &[], &["x"]),
            module("src/f.ts", &["./h.ts"], &["x"], &["x"]),
            module("src/h.ts", &[], &["x"], &["x"]),
        ],
    };
    let kept = sorted(tree_shake(&g, "src/e.ts"));
    assert_eq!(kept, vec!["src/f.ts::x".to_string(), "src/h.ts::x".to_string()]);
}

#[test]
fn demand_also_reaches_importers_that_mention_it() {
    let g = Graph {
        modules: vec![
            module("src/e.ts", &[], &[], &["x"]),
            module("src/p.ts", &["./e.ts"], &["x"], &["x"]),
            module("src/q.ts", &["./e.ts"], &["x"], &["other"]),
        ],
    };
    assert_eq!(tree_shake(&g, "src/e.ts"), vec!["src/p.ts::x".to_string()]);
}

#[test]
fn demand_stops_where_name_is_not_mentioned() {
    let g = Graph {
        modules: vec![
            module("src/e.ts", &["./f.ts"], &[], &["x"]),
            module("src/f.ts", &["./h.ts"], &["x"], &["other"]),
            module("src/h.ts", &[], &["x"], &["x"]),
        ],
    };
    assert_eq!(tree_shake(&g, "src/e.ts"), vec!["src/f.ts::x".to_string()]);
}

#[test]
fn unrelated_name_not_kept() {
    let g = Graph {
        modules: vec![
            module("src/e.ts", &["./f.ts"], &["a"], &["a", "b"]),
            module("src/f.ts", &["./e.ts"], &["y", "b"], &["y", "b"]),
        ],
    };
    let kept = sorted(tree_shake(&g, "src/e.ts"));
    assert!(!kept.iter().any(|k| k.ends_with("::y")));
    assert_eq!(kept, vec!["src/e.ts::a".to_string(), "src/f.ts::b".to_string()]);
}

#[test]
fn missing_entry_keeps_nothing() {
    let g = Graph { modules: vec![module("src/a.ts", &[], &["a"], &["a"])] };
    assert!(tree_shake(&g, "src/nowhere.ts").is_empty());
}

#[test]
fn empty_graph_keeps_nothing() {
    assert!(tree_shake(&Graph::new(), "src/a.ts").is_empty());
}

#[test]
fn cycle_is_shaken_once_per_key() {
    let g = Graph {
        modules: vec![
            module("src/a.ts", &["./b.ts"], &["s"], &["s"]),
            module("src/b.ts", &["./a.ts"], &["s"], &["s"]),
        ],
    };
    let kept = sorted(tree_shake(&g, "src/a.ts"));
    assert_eq!(kept, vec!["src/a.ts::s".to_string(), "src/b.ts::s".to_string()]);
}

#[test]
fn package_imports_are_not_followed() {
    let g = Graph {
        modules: vec![
            module("src/e.ts", &["react"], &[], &["x"]),
            module("src/p.ts", &["react", "./e.ts"], &["x"], &["x"]),
        ],
    };
    assert_eq!(tree_shake(&g, "src/e.ts"), vec!["src/p.ts::x".to_string()]);
}

#[test]
fn graph_lookups() {
    let g = Graph {
        modules: vec![module("src/a.ts", &[], &["a"], &["a"]), module("src/b.ts", &[], &[], &["q"])],
    };
    assert_eq!(g.find("src/b.ts"), Some(1));
    assert_eq!(g.find("src/c.ts"), None);
    assert!(g.contains("src/a.ts"));
    assert!(!g.contains("a.ts"));
    let b = g.get("src/b.ts").unwrap();
    assert!(b.uses_name(&"q".to_string()));
    assert!(!b.exports_name(&"q".to_string()));
    assert!(g.get("src/c.ts").is_none());
    let copy = g.duplicate();
    assert_eq!(copy.modules.len(), 2);
    assert_eq!(copy.modules[0].exports, vec!["a".to_string()]);
}

#[test]
fn empty_module_info() {
    let m = ModuleInfo::empty("./broken.ts");
    assert_eq!(m.id, "./broken.ts");
    assert!(m.imports.is_empty() && m.exports.is_empty() && m.used_symbols.is_empty());
}

#[test]
fn reachable_modules_follow_relative_imports() {
    let g = Graph {
        modules: vec![
            module("src/e.ts", &["./a.ts", "react"], &[], &[]),
            module("src/a.ts", &["./missing.ts", "./a.ts"], &[], &[]),
            module("src/z.ts", &["./a.ts"], &[], &[]),
        ],
    };
    let r = sorted(bundler::reachable_modules(&g, "src/e.ts"));
    assert_eq!(r, vec!["src/a.ts".to_string(), "src/e.ts".to_string(), "src/missing.ts".to_string()]);
}

#[test]
fn reachable_modules_of_absent_entry() {
    let g = Graph { modules: vec![module("src/a.ts", &["./b.ts"], &[], &[])] };
    assert_eq!(bundler::reachable_modules(&g, "src/x.ts"), vec!["src/x.ts".to_string()]);
}

#[test]
fn duplicate_ids_detected() {
    let good = Graph { modules: vec![module("a", &[], &[], &[]), module("b", &[], &[], &[])] };
    let bad = Graph { modules: vec![module("a", &[], &[], &[]), module("a", &[], &[], &[])] };
    assert!(good.ids_unique());
    assert!(!bad.ids_unique());
}
