use fussr::app::GitRequest;
use fussr::command::{
    diff_command, failure_message, incoming_files_command, last_message_command, set_upstream_command,
    step_for, Command, Program, Step,
};

fn git(args: &[&str], capture: bool) -> Command {
    Command { program: Program::Git, args: args.iter().map(|a| a.to_string()).collect(), capture }
}

#[test]
fn steps_for_staging_requests() {
    assert_eq!(step_for(&GitRequest::Nothing), None);
    assert_eq!(step_for(&GitRequest::StageFile("a".to_string())), Some(Step::AddToIndex("a".to_string())));
    assert_eq!(
        step_for(&GitRequest::StageDirectory("d".to_string())),
        Some(Step::Run(git(&["add", "d"], false)))
    );
    assert_eq!(step_for(&GitRequest::StageAll), Some(Step::Run(git(&["add", "--all"], false))));
    assert_eq!(
        step_for(&GitRequest::UnstageFile("f".to_string())),
        Some(Step::Run(git(&["restore", "--staged", "f"], false)))
    );
    assert_eq!(step_for(&GitRequest::UnstageAll), Some(Step::Run(git(&["restore", "--staged", "."], false))));
}

#[test]
fn steps_for_discard_and_delete_depend_on_tracking() {
    assert_eq!(
        step_for(&GitRequest::DiscardChanges { path: "f".to_string(), is_untracked: true }),
        Some(Step::RemoveFile("f".to_string()))
    );
    assert_eq!(
        step_for(&GitRequest::DiscardChanges { path: "f".to_string(), is_untracked: false }),
        Some(Step::Run(git(&["restore", "--source=HEAD", "--staged", "--worktree", "f"], false)))
    );
    assert_eq!(
        step_for(&GitRequest::DeleteFile { path: "f".to_string(), is_untracked: false }),
        Some(Step::Run(git(&["rm", "-f", "f"], false)))
    );
}

#[test]
fn steps_for_remote_commit_and_rename() {
    assert_eq!(step_for(&GitRequest::Fetch), Some(Step::Run(git(&["fetch"], true))));
    assert_eq!(step_for(&GitRequest::Push), Some(Step::Run(git(&["push"], true))));
    assert_eq!(
        step_for(&GitRequest::CommitAmend("m".to_string())),
        Some(Step::Run(git(&["commit", "--amend", "-m", "m"], true)))
    );
    assert_eq!(
        step_for(&GitRequest::RenameFile { from: "a".to_string(), to: "b".to_string() }),
        Some(Step::Run(Command {
            program: Program::Mv,
            args: vec!["-f".to_string(), "a".to_string(), "b".to_string()],
            capture: false
        }))
    );
}

#[test]
fn failure_messages_per_request() {
    assert_eq!(failure_message(&GitRequest::StageAll, "", "main"), Some("Failed to stage all".to_string()));
    assert_eq!(failure_message(&GitRequest::StageFile("a".to_string()), "", "main"), None);
    assert_eq!(
        failure_message(&GitRequest::DeleteFile { path: "f".to_string(), is_untracked: true }, "", "main"),
        None
    );
    assert_eq!(
        failure_message(&GitRequest::Push, "has no upstream", "dev"),
        Some("No upstream set. Run: git push -u origin dev".to_string())
    );
    assert_eq!(failure_message(&GitRequest::Commit("x".to_string()), "", "m"), Some("Failed to commit".to_string()));
}

#[test]
fn auxiliary_commands() {
    assert_eq!(incoming_files_command("origin/main"), git(&["diff", "--name-only", "HEAD...origin/main"], true));
    assert_eq!(last_message_command(), git(&["log", "-1", "--pretty=%B"], true));
    assert_eq!(set_upstream_command("o", "b"), git(&["branch", "--set-upstream-to", "o/b"], true));
    assert_eq!(diff_command("f", true), git(&["diff", "HEAD...@{upstream}", "--", "f"], true));
    assert_eq!(diff_command("f", false), git(&["diff", "HEAD", "--", "f"], true));
}
