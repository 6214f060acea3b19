use bundler::{canonical_path, is_relative_specifier, normalize_path, GraphBuilder, GraphCache, ModuleInfo};
use bundler::{MethodSpec, RendererConfig, TurboModuleSpec};
use std::collections::HashMap;

fn module(id: &str, imports: &[&str]) -> ModuleInfo {
    ModuleInfo {
        id: id.to_string(),
        imports: imports.iter().map(|s| s.to_string()).collect(),
        exports: vec![],
        used_symbols: vec![],
    }
}

#[test]
fn resolution_is_repeatable() {
    let a = normalize_path("src/app.ts", "./util.ts");
    let b = normalize_path("src/app.ts", "./util.ts");
    assert_eq!(a, b);
    assert_eq!(a, "src/util.ts");
    assert_eq!(normalize_path("src/other.ts", "./util.ts"), a);
}

#[test]
fn resolution_joins_to_importer_directory() {
    assert_eq!(normalize_path("entry.ts", "./math.ts"), "math.ts");
    assert_eq!(normalize_path("./a.ts", "./b.ts"), "b.ts");
    assert_eq!(normalize_path("lib/x/y.ts", "../z.ts"), "lib/z.ts");
    assert_eq!(normalize_path("d/b.ts", "../d/a.ts"), "d/a.ts");
    assert_eq!(normalize_path("/abs/m.ts", "./n.ts"), "/abs/n.ts");
}

#[test]
fn canonical_forms() {
    assert_eq!(canonical_path("src/./a.ts"), "src/a.ts");
    assert_eq!(canonical_path("./././b.ts"), "b.ts");
    assert_eq!(canonical_path("a//b/../c.ts"), "a/c.ts");
    assert_eq!(canonical_path("../../x.ts"), "../../x.ts");
    assert_eq!(canonical_path("a/../../x.ts"), "../x.ts");
    assert_eq!(canonical_path("/../x.ts"), "/x.ts");
    assert_eq!(canonical_path("/"), "/");
    assert_eq!(canonical_path("a/.."), ".");
    assert_eq!(canonical_path(""), ".");
}

#[test]
fn cycle_through_parent_directory_closes() {
    let mut b = GraphBuilder::new("d/a.ts");
    let mut loads: Vec<String> = vec![];
    while let Some(id) = b.next_module() {
        loads.push(id.clone());
        let info = match id.as_str() {
            "d/a.ts" => module("d/a.ts", &["./b.ts"]),
            "d/b.ts" => module("d/b.ts", &["../d/a.ts", "./a.ts"]),
            other => panic!("unexpected module {}", other),
        };
        assert!(b.add_module(info));
    }
    assert_eq!(loads, vec!["d/a.ts", "d/b.ts"]);
}

#[test]
fn relative_specifiers() {
    assert!(is_relative_specifier("./a.ts"));
    assert!(is_relative_specifier("../a.ts"));
    assert!(!is_relative_specifier("react"));
    assert!(!is_relative_specifier(""));
}

#[test]
fn mutual_imports_build_once_each() {
    let mut b = GraphBuilder::new("src/./main.ts");
    assert_eq!(b.next_module(), Some("src/main.ts".to_string()));
    assert!(b.add_module(module("src/main.ts", &["./a.ts"])));
    assert_eq!(b.next_module(), Some("src/a.ts".to_string()));
    assert!(b.add_module(module("src/a.ts", &["./b.ts"])));
    assert_eq!(b.next_module(), Some("src/b.ts".to_string()));
    assert!(b.add_module(module("src/b.ts", &["./a.ts"])));
    assert_eq!(b.next_module(), None);
    let g = b.into_graph();
    let ids: Vec<&str> = g.modules.iter().map(|m| m.id.as_str()).collect();
    assert_eq!(ids, vec!["src/main.ts", "src/a.ts", "src/b.ts"]);
}

#[test]
fn shared_dependency_loaded_once() {
    let mut b = GraphBuilder::new("src/e.ts");
    let mut loads: Vec<String> = vec![];
    while let Some(id) = b.next_module() {
        loads.push(id.clone());
        let info = match id.as_str() {
            "src/e.ts" => module("src/e.ts", &["./b.ts", "./c.ts", "react"]),
            "src/b.ts" => module("src/b.ts", &["./d.ts"]),
            "src/c.ts" => module("src/c.ts", &["./d.ts"]),
            "src/d.ts" => module("src/d.ts", &[]),
            other => panic!("unexpected module {}", other),
        };
        assert!(b.add_module(info));
    }
    assert_eq!(loads, vec!["src/e.ts", "src/b.ts", "src/d.ts", "src/c.ts"]);
    assert_eq!(b.into_graph().modules.len(), 4);
}

#[test]
fn awaited_module_is_named_again() {
    let mut b = GraphBuilder::new("./a.ts");
    assert_eq!(b.next_module(), Some("a.ts".to_string()));
    assert_eq!(b.next_module(), Some("a.ts".to_string()));
    assert!(!b.add_module(module("other.ts", &[])));
    assert!(b.add_module(ModuleInfo::empty("a.ts")));
    assert!(!b.add_module(ModuleInfo::empty("a.ts")));
    assert_eq!(b.next_module(), None);
    assert_eq!(b.into_graph().modules.len(), 1);
}

#[test]
fn cached_build_repeats() {
    let mut cache = GraphCache::new();
    assert!(cache.lookup("./a.ts").is_none());
    let mut b = GraphBuilder::new("./a.ts");
    let mut loads = 0;
    while let Some(id) = b.next_module() {
        let imports: &[&str] = if id == "a.ts" { &["./c.ts"] } else { &[] };
        assert!(b.add_module(module(&id, imports)));
        loads += 1;
    }
    assert_eq!(loads, 2);
    let built = b.into_graph();
    cache.store("./a.ts", built.duplicate());
    let first = cache.lookup("./a.ts").unwrap();
    let second = cache.lookup("./a.ts").unwrap();
    let ids = |g: &bundler::Graph| g.modules.iter().map(|m| m.id.clone()).collect::<Vec<_>>();
    assert_eq!(ids(&first), ids(&built));
    assert_eq!(ids(&first), ids(&second));
    assert!(cache.lookup("./b.ts").is_none());
}

#[test]
fn cache_store_replaces() {
    let mut cache = GraphCache::new();
    let mut one = bundler::Graph::new();
    one.modules.push(module("./a.ts", &[]));
    cache.store("./a.ts", one);
    cache.store("./a.ts", bundler::Graph::new());
    assert_eq!(cache.lookup("./a.ts").unwrap().modules.len(), 0);
}

#[test]
fn native_settings_values() {
    let config = RendererConfig {
        enable_gpu: true,
        vsync: true,
        msaa: 4,
        color_space: "srgb".to_string(),
        thread_pool_size: None,
    };
    let copy = config.clone();
    assert_eq!(copy.msaa, 4);
    let mut methods = HashMap::new();
    methods.insert(
        "render".to_string(),
        MethodSpec { signature: "(tree) => void".to_string(), sync: false, thread_safe: true },
    );
    let spec = TurboModuleSpec { methods };
    assert!(spec.methods["render"].thread_safe);
}
