//! The three phases of a submission: analysis, planning and execution.

pub mod analysis;
pub mod comment;
pub mod constraints;
pub mod execute;
pub mod laws;
pub mod nodes;
pub mod options;
pub mod plan;
pub mod planner;
pub mod registry;
pub mod schedule;
pub mod scope;

pub use analysis::{
    analyze_submission, create_narrowed_segments, generate_pr_title, get_base_branch,
    has_temporary_marker, is_temporary_bookmark, select_bookmark_for_segment, SubmissionAnalysis,
};
pub use comment::{
    build_stack_comment_data, encode_manifest, find_stack_comment, format_stack_comment,
    frame_item, frame_manifest, stack_comment_action,
    stack_comment_body, write_manifest, CommentAction, StackCommentData, StackItem,
    COMMENT_DATA_POSTFIX, COMMENT_DATA_PREFIX, COMMENT_DATA_PREFIX_OLD, STACK_COMMENT_THIS_PR,
};
pub use constraints::{collect_constraints, resolve_constraints};
pub use execute::{
    execute_create_pr, execute_publish_pr, execute_push, execute_update_base,
    format_step_for_dry_run, record_outcome, report_dry_run, step_announcement, step_request,
    StepOutcome, StepRequest, SubmissionResult,
};
pub use nodes::build_execution_nodes;
pub use options::{apply_plan_options, validate_selection};
pub use plan::{
    CreateRef, ExecutionConstraint, ExecutionStep, PrBaseUpdate, PrToCreate, PushRef, StepKind,
    SubmissionPlan, UpdateRef,
};
pub use planner::{build_execution_steps, create_submission_plan};
pub use registry::NodeRegistry;
pub use schedule::{topo_sort_steps, ExecutionNode};
pub use scope::{
    build_analysis, filter_plan_to_selection, filter_to_tracked, only_scope_parent,
    require_tracking, validate_options, SubmitOptions, SubmitScope,
};
