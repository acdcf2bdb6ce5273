use vstd::prelude::*;

pub mod text;
pub mod add;
pub mod bounded;
pub mod glue_placeholder;
pub mod glue_unions;
pub mod host_target;
pub mod interrupt;
pub mod main_contract;
pub mod manifest;
pub mod publish;
pub mod readme_claims;
pub mod readme_generate;
pub mod readme_examples;
pub mod readme_numbers;
pub mod readme_taint;
pub mod resolve;
pub mod splice;
pub mod stub;
pub mod stub_source;
pub mod symbols;
pub mod roc_scan;
pub mod scan;
pub mod shipped_modules;
pub mod pipeline;
pub mod deps;
pub mod package_modules;
pub mod pins;
pub mod package_worlds;
pub mod new_marker;
pub mod journal;
pub mod project;
pub mod scaffold;
pub mod package_test;
pub mod package_suites;
pub mod path_deps;
pub mod cargo;
pub mod readme_lex;

verus! {
} // verus!
