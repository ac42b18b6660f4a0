//! Draw generation, clash evaluation and break computation for debate
//! tournaments, with the ids of teams, speakers and adjudicators held as
//! 128-bit integers.

mod random;
pub mod participants;
pub mod eligibility;
pub mod clashes;
pub mod issues;
pub mod datastructures;
pub mod evaluation;
pub mod severity;
pub mod tab_draw;
pub mod breaks;
pub mod round_draw;
pub mod plan;
pub mod reindex;
pub mod edit_tree;
pub mod upload;
pub mod clash_updates;
pub mod participant_updates;
pub mod creation;
pub mod feedback;
pub mod history;
pub mod laws;
pub mod settings;
pub mod preliminary;
pub mod optimization;
pub mod flow_optimization;
pub mod draw_updates;
pub mod tournament_context;
pub mod flat_evaluation;
pub mod sync;
pub mod round_loading;
pub mod observing;
pub mod release;
