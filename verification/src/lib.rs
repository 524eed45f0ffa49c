//! A rule dependency resolver and action orchestrator for a personal
//! environment configuration manager.
//!
//! Users declare named rules, each bundling a list of setup actions and a
//! list of other rules it depends on.  The library validates rule names,
//! stores the rule configuration, resolves the dependency graph rooted at a
//! requested rule into a deduplicated execution plan that respects every
//! `deps` edge, detects dependency cycles, and drives sequential, fail-fast
//! action execution through an explicit execution state machine.

mod config;
mod graph;
mod identifier;
mod orchestrator;
mod resolver;

pub use orchestrator::schedule_of;
pub use orchestrator::step_seq;
pub use orchestrator::steps_of;
pub use orchestrator::ActionStep;
pub use orchestrator::Execution;
pub use orchestrator::StepView;

pub use graph::acyclic;
pub use graph::dep_edge;
pub use graph::fully_defined_from;
pub use graph::is_cycle;
pub use graph::is_dep_path;
pub use graph::lemma_closed_path;
pub use graph::lemma_plan_orders_dependencies;
pub use graph::lemma_reaches_self;
pub use graph::lemma_reaches_step;
pub use graph::plan_valid;
pub use graph::reaches;
pub use graph::scheduled_earlier;

pub use config::all_valid;
pub use config::appears_in;
pub use config::keys_distinct;
pub use config::name_seq;
pub use config::raw_names_distinct;
pub use config::raw_valid;
pub use config::store_view;
pub use config::text_seq;
pub use config::ActionError;
pub use config::Config;
pub use config::ConfigError;
pub use config::RawRule;
pub use config::RuleBody;
pub use config::RuleView;
pub use identifier::has_whitespace;
pub use identifier::is_whitespace_char;
pub use identifier::Identifier;
