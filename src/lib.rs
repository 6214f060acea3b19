pub mod path;
pub mod module;
pub mod graph;
pub mod shake;
pub mod builder;
pub mod cache;
pub mod reach;
pub mod native;

pub use builder::GraphBuilder;
pub use cache::GraphCache;
pub use graph::Graph;
pub use module::ModuleInfo;
pub use native::{MethodSpec, RendererConfig, TurboModuleSpec};
pub use path::{canonical_path, is_relative_specifier, normalize_path};
pub use reach::reachable_modules;
pub use shake::tree_shake;
