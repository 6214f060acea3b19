use vstd::prelude::*;
use std::collections::HashMap;

verus! {

/// Settings of the native renderer.
#[derive(Clone, Debug)]
pub struct RendererConfig {
    pub enable_gpu: bool,
    pub vsync: bool,
    pub msaa: u32,
    pub color_space: String,
    pub thread_pool_size: Option<usize>,
}

/// The methods that a native module offers, by name.
#[derive(Clone, Debug)]
pub struct TurboModuleSpec {
    pub methods: HashMap<String, MethodSpec>,
}

/// One method of a native module: its signature and how it may be called.
#[derive(Clone, Debug)]
pub struct MethodSpec {
    pub signature: String,
    pub sync: bool,
    pub thread_safe: bool,
}

} // verus!
