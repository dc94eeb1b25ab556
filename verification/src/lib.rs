//! Verified pieces of a web engine's components: memory reports, the frame
//! tree, service worker jobs, origins, event targets, module scripts, the
//! HTML tree sink and node tree, the devtools client and actors, shared
//! workers, settings stacks, web cryptography and layout fragments.
use vstd::prelude::*;

pub mod text_util;
pub mod memory_reports;
pub mod frame_tree;
pub mod service_worker_job;
pub mod origin;
pub mod string_map;
pub mod event_target;
pub mod script_module;
pub mod dom_tree;
pub mod html_sink;
pub mod devtools_client;
pub mod shared_workers;
pub mod session_history;
pub mod settings_stack;
pub mod webcrypto;
pub mod fragment;
pub mod browsing_context;
pub mod realms;
pub mod devtools_actors;

verus! {

} // verus!
