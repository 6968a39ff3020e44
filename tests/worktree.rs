use parallel_code::error::AppError;
use parallel_code::spawn::{effective_command, env_plan, EnvOp};
use parallel_code::worktree::{
    branch_delete_args, create_worktree, remove_worktree, worktree_add_args,
    worktree_path, ToolOutcome, WorktreeInfo,
};

fn failed(stderr: &str) -> ToolOutcome {
    ToolOutcome::Exited { success: false, stderr: stderr.as_bytes().to_vec() }
}

fn ok() -> ToolOutcome {
    ToolOutcome::Exited { success: true, stderr: Vec::new() }
}

#[test]
fn worktree_layout() {
    assert_eq!(worktree_path("/repo", "feat"), "/repo/.worktrees/feat");
    assert_eq!(worktree_add_args("/repo", "feat"), vec!["worktree", "add", "/repo/.worktrees/feat", "feat"]);
}

#[test]
fn existing_branch_is_tolerated() {
    let r = create_worktree("/repo", "feat", &failed("fatal: a branch named 'feat' already exists"), &ok());
    assert_eq!(
        r,
        Ok(WorktreeInfo { path: "/repo/.worktrees/feat".to_string(), branch: "feat".to_string() })
    );
}

#[test]
fn existing_directory_fails() {
    let r = create_worktree("/repo", "feat", &failed("exists"), &failed("already exists"));
    assert_eq!(r, Err(AppError::ExternalTool("Failed to create worktree: already exists".to_string())));
    let r = create_worktree("/repo", "feat", &ok(), &ToolOutcome::NotStarted("no git".to_string()));
    assert_eq!(r, Err(AppError::ExternalTool("no git".to_string())));
}

#[test]
fn remove_reports_failure_and_plans_branch_cleanup() {
    assert_eq!(remove_worktree(&ok()), Ok(()));
    assert_eq!(
        remove_worktree(&failed("not a worktree")),
        Err(AppError::ExternalTool("Failed to remove worktree: not a worktree".to_string()))
    );
    assert_eq!(branch_delete_args("feat", true, true), Some(vec!["branch".to_string(), "-D".to_string(), "feat".to_string()]));
    assert_eq!(branch_delete_args("feat", true, false), None);
    assert_eq!(branch_delete_args("feat", false, true), None);
}

#[test]
fn empty_command_uses_default_shell() {
    assert_eq!(effective_command(String::new(), "/bin/sh".to_string()), "/bin/sh");
    assert_eq!(effective_command("vim".to_string(), "/bin/sh".to_string()), "vim");
}

#[test]
fn environment_plan_order() {
    let plan = env_plan(Some("/usr/bin".to_string()), &vec![("TERM".to_string(), "dumb".to_string())]);
    assert_eq!(plan.len(), 7);
    assert_eq!(plan[0], EnvOp::Assign("TERM".to_string(), "xterm-256color".to_string()));
    assert_eq!(plan[2], EnvOp::Assign("PATH".to_string(), "/usr/bin".to_string()));
    assert_eq!(plan[3], EnvOp::Unset("CLAUDECODE".to_string()));
    assert_eq!(plan[6], EnvOp::Assign("TERM".to_string(), "dumb".to_string()));
    assert_eq!(env_plan(None, &Vec::new()).len(), 5);
}
