//! The commands behind each git request: which program runs with which
//! arguments, and how a failure is worded.
use vstd::prelude::*;
use crate::app::{GitRequest, RequestView};
use crate::git::{
    fetch_failure_message, fetch_failure_spec, incoming_range, pull_failure_message,
    pull_failure_spec, push_failure_message, push_failure_spec, upstream_target,
};
use crate::path::strings_view;
use crate::text::copy_str;

verus! {

/// The program a command runs.
#[derive(Debug, Clone, Copy, PartialEq, Eq, Structural)]
pub enum Program {
    Git,
    Mv,
}

/// A program to run with its arguments; `capture` asks for its output to be
/// read (and kept off the terminal); otherwise only its exit status counts.
#[derive(Debug, Clone, PartialEq, Eq)]
pub struct Command {
    pub program: Program,
    pub args: Vec<String>,
    pub capture: bool,
}

/// The abstract command.
pub struct CommandView {
    pub program: Program,
    pub args: Seq<Seq<char>>,
    pub capture: bool,
}

impl View for Command {
    type V = CommandView;

    open spec fn view(&self) -> CommandView {
        CommandView { program: self.program, args: strings_view(self.args@), capture: self.capture }
    }
}

/// One step of carrying out a git request.
#[derive(Debug, Clone, PartialEq, Eq)]
pub enum Step {
    /// Run a command; it must succeed.
    Run(Command),
    /// Remove the file at this path from the disk.
    RemoveFile(String),
    /// Add the file at this path to the index and write the index.
    AddToIndex(String),
}

/// The abstract step.
pub enum StepView {
    Run(CommandView),
    RemoveFile(Seq<char>),
    AddToIndex(Seq<char>),
}

impl View for Step {
    type V = StepView;

    open spec fn view(&self) -> StepView {
        match self {
            Step::Run(c) => StepView::Run(c@),
            Step::RemoveFile(p) => StepView::RemoveFile(p@),
            Step::AddToIndex(p) => StepView::AddToIndex(p@),
        }
    }
}

/// A git command with the given arguments.
pub open spec fn git(args: Seq<Seq<char>>, capture: bool) -> CommandView {
    CommandView { program: Program::Git, args, capture }
}

/// The step that carries out a request, if it needs one: staging a file
/// goes through the index; untracked files are discarded or deleted by
/// removing them; everything else runs git (or `mv` for a rename), with the
/// output read for the commands that talk to a remote or commit.
pub open spec fn request_step(r: RequestView) -> Option<StepView> {
    match r {
        RequestView::Nothing => None,
        RequestView::StageFile(p) => Some(StepView::AddToIndex(p)),
        RequestView::StageDirectory(p) => Some(StepView::Run(git(seq!["add"@, p], false))),
        RequestView::UnstageFile(p) => Some(StepView::Run(git(seq!["restore"@, "--staged"@, p], false))),
        RequestView::StageAll => Some(StepView::Run(git(seq!["add"@, "--all"@], false))),
        RequestView::UnstageAll => Some(StepView::Run(git(seq!["restore"@, "--staged"@, "."@], false))),
        RequestView::DiscardChanges { path, is_untracked } => if is_untracked {
            Some(StepView::RemoveFile(path))
        } else {
            Some(
                StepView::Run(
                    git(seq!["restore"@, "--source=HEAD"@, "--staged"@, "--worktree"@, path], false),
                ),
            )
        },
        RequestView::DeleteFile { path, is_untracked } => if is_untracked {
            Some(StepView::RemoveFile(path))
        } else {
            Some(StepView::Run(git(seq!["rm"@, "-f"@, path], false)))
        },
        RequestView::Fetch => Some(StepView::Run(git(seq!["fetch"@], true))),
        RequestView::Pull => Some(StepView::Run(git(seq!["pull"@], true))),
        RequestView::Push => Some(StepView::Run(git(seq!["push"@], true))),
        RequestView::Commit(m) => Some(StepView::Run(git(seq!["commit"@, "-m"@, m], true))),
        RequestView::CommitAmend(m) => Some(StepView::Run(git(seq!["commit"@, "--amend"@, "-m"@, m], true))),
        RequestView::RenameFile { from, to } => Some(
            StepView::Run(CommandView { program: Program::Mv, args: seq!["-f"@, from, to], capture: false }),
        ),
    }
}

/// Law of the steps for requests on one path: staging a file adds exactly
/// that path to the index; discarding or deleting an untracked file removes
/// exactly that file; every other such request runs git with that path as
/// its last argument; and no request on a path removes a tracked file.
pub proof fn lemma_steps_name_the_path(r: RequestView)
    ensures
        r matches RequestView::StageFile(p) ==> request_step(r) == Some(StepView::AddToIndex(p)),
        r matches RequestView::StageDirectory(p) ==> (request_step(r) matches Some(StepView::Run(c))
            && c.program == Program::Git && c.args.last() == p),
        r matches RequestView::UnstageFile(p) ==> (request_step(r) matches Some(StepView::Run(c))
            && c.program == Program::Git && c.args.last() == p),
        r matches RequestView::DiscardChanges { path, is_untracked } ==> (if is_untracked {
            request_step(r) == Some(StepView::RemoveFile(path))
        } else {
            (request_step(r) matches Some(StepView::Run(c)) && c.program == Program::Git
                && c.args.last() == path && c.args[0] == "restore"@)
        }),
        r matches RequestView::DeleteFile { path, is_untracked } ==> (if is_untracked {
            request_step(r) == Some(StepView::RemoveFile(path))
        } else {
            (request_step(r) matches Some(StepView::Run(c)) && c.program == Program::Git
                && c.args.last() == path && c.args[0] == "rm"@)
        }),
{
}

fn arg(s: &str) -> (r: String)
    ensures
        r@ == s@,
{
    copy_str(s)
}

fn git_command(args: Vec<String>, capture: bool) -> (r: Command)
    ensures
        r@ == git(strings_view(args@), capture),
{
    Command { program: Program::Git, args, capture }
}

/// A git step with the given arguments.
fn git_step(args: Vec<String>, capture: bool) -> (r: Step)
    ensures
        r@ == StepView::Run(git(strings_view(args@), capture)),
{
    Step::Run(git_command(args, capture))
}

/// The step that carries out a request (see `request_step`).
pub fn step_for(request: &GitRequest) -> (r: Option<Step>)
    ensures
        match r {
            Some(s) => request_step(request@) == Some(s@),
            None => request_step(request@) is None,
        },
{
    match request {
        GitRequest::Nothing => None,
        GitRequest::StageFile(p) => Some(Step::AddToIndex(arg(p.as_str()))),
        GitRequest::StageDirectory(p) => {
            let args = vec![arg("add"), arg(p.as_str())];
            assert(strings_view(args@) =~= seq!["add"@, p@]);
            Some(git_step(args, false))
        },
        GitRequest::UnstageFile(p) => {
            let args = vec![arg("restore"), arg("--staged"), arg(p.as_str())];
            assert(strings_view(args@) =~= seq!["restore"@, "--staged"@, p@]);
            Some(git_step(args, false))
        },
        GitRequest::StageAll => {
            let args = vec![arg("add"), arg("--all")];
            assert(strings_view(args@) =~= seq!["add"@, "--all"@]);
            Some(git_step(args, false))
        },
        GitRequest::UnstageAll => {
            let args = vec![arg("restore"), arg("--staged"), arg(".")];
            assert(strings_view(args@) =~= seq!["restore"@, "--staged"@, "."@]);
            Some(git_step(args, false))
        },
        GitRequest::DiscardChanges { path, is_untracked } => if *is_untracked {
            Some(Step::RemoveFile(arg(path.as_str())))
        } else {
            let args = vec![
                arg("restore"),
                arg("--source=HEAD"),
                arg("--staged"),
                arg("--worktree"),
                arg(path.as_str()),
            ];
            assert(strings_view(args@) =~= seq![
                "restore"@,
                "--source=HEAD"@,
                "--staged"@,
                "--worktree"@,
                path@,
            ]);
            Some(git_step(args, false))
        },
        GitRequest::DeleteFile { path, is_untracked } => if *is_untracked {
            Some(Step::RemoveFile(arg(path.as_str())))
        } else {
            let args = vec![arg("rm"), arg("-f"), arg(path.as_str())];
            assert(strings_view(args@) =~= seq!["rm"@, "-f"@, path@]);
            Some(git_step(args, false))
        },
        GitRequest::Fetch => {
            let args = vec![arg("fetch")];
            assert(strings_view(args@) =~= seq!["fetch"@]);
            Some(git_step(args, true))
        },
        GitRequest::Pull => {
            let args = vec![arg("pull")];
            assert(strings_view(args@) =~= seq!["pull"@]);
            Some(git_step(args, true))
        },
        GitRequest::Push => {
            let args = vec![arg("push")];
            assert(strings_view(args@) =~= seq!["push"@]);
            Some(git_step(args, true))
        },
        GitRequest::Commit(m) => {
            let args = vec![arg("commit"), arg("-m"), arg(m.as_str())];
            assert(strings_view(args@) =~= seq!["commit"@, "-m"@, m@]);
            Some(git_step(args, true))
        },
        GitRequest::CommitAmend(m) => {
            let args = vec![arg("commit"), arg("--amend"), arg("-m"), arg(m.as_str())];
            assert(strings_view(args@) =~= seq!["commit"@, "--amend"@, "-m"@, m@]);
            Some(git_step(args, true))
        },
        GitRequest::RenameFile { from, to } => {
            let args = vec![arg("-f"), arg(from.as_str()), arg(to.as_str())];
            assert(strings_view(args@) =~= seq!["-f"@, from@, to@]);
            Some(Step::Run(Command { program: Program::Mv, args, capture: false }))
        },
    }
}

/// The message of a failed request's command, given what it wrote to its
/// error output and the current branch; none for the steps whose failure
/// carries its own error (adding to the index, removing a file) and for a
/// request without a step.
pub open spec fn failure_spec(r: RequestView, stderr: Seq<char>, branch: Seq<char>) -> Option<Seq<char>> {
    match r {
        RequestView::StageDirectory(_) => Some("Failed to stage directory"@),
        RequestView::UnstageFile(_) => Some("Failed to unstage file"@),
        RequestView::StageAll => Some("Failed to stage all"@),
        RequestView::UnstageAll => Some("Failed to unstage all"@),
        RequestView::DiscardChanges { is_untracked, .. } => if is_untracked {
            None
        } else {
            Some("Failed to discard changes"@)
        },
        RequestView::DeleteFile { is_untracked, .. } => if is_untracked {
            None
        } else {
            Some("Failed to delete file"@)
        },
        RequestView::Fetch => Some(fetch_failure_spec(stderr)),
        RequestView::Pull => Some(pull_failure_spec(stderr, branch)),
        RequestView::Push => Some(push_failure_spec(stderr, branch)),
        RequestView::Commit(_) => Some("Failed to commit"@),
        RequestView::CommitAmend(_) => Some("Failed to amend commit"@),
        RequestView::RenameFile { .. } => Some("Failed to rename file"@),
        _ => None,
    }
}

/// The message of a failed request's command (see `failure_spec`).
pub fn failure_message(request: &GitRequest, stderr: &str, branch: &str) -> (r: Option<String>)
    ensures
        match r {
            Some(m) => failure_spec(request@, stderr@, branch@) == Some(m@),
            None => failure_spec(request@, stderr@, branch@) is None,
        },
{
    match request {
        GitRequest::StageDirectory(_) => Some(arg("Failed to stage directory")),
        GitRequest::UnstageFile(_) => Some(arg("Failed to unstage file")),
        GitRequest::StageAll => Some(arg("Failed to stage all")),
        GitRequest::UnstageAll => Some(arg("Failed to unstage all")),
        GitRequest::DiscardChanges { is_untracked, .. } => if *is_untracked {
            None
        } else {
            Some(arg("Failed to discard changes"))
        },
        GitRequest::DeleteFile { is_untracked, .. } => if *is_untracked {
            None
        } else {
            Some(arg("Failed to delete file"))
        },
        GitRequest::Fetch => Some(fetch_failure_message(stderr)),
        GitRequest::Pull => Some(pull_failure_message(stderr, branch)),
        GitRequest::Push => Some(push_failure_message(stderr, branch)),
        GitRequest::Commit(_) => Some(arg("Failed to commit")),
        GitRequest::CommitAmend(_) => Some(arg("Failed to amend commit")),
        GitRequest::RenameFile { .. } => Some(arg("Failed to rename file")),
        _ => None,
    }
}

/// `git diff --name-only HEAD...<upstream>`: the files changed upstream.
pub fn incoming_files_command(upstream: &str) -> (r: Command)
    ensures
        r@ == git(seq!["diff"@, "--name-only"@, "HEAD..."@ + upstream@], true),
{
    let r = git_command(vec![arg("diff"), arg("--name-only"), incoming_range(upstream)], true);
    assert(r@.args =~= seq!["diff"@, "--name-only"@, "HEAD..."@ + upstream@]);
    r
}

/// `git log -1 --pretty=%B`: the last commit message.
pub fn last_message_command() -> (r: Command)
    ensures
        r@ == git(seq!["log"@, "-1"@, "--pretty=%B"@], true),
{
    let r = git_command(vec![arg("log"), arg("-1"), arg("--pretty=%B")], true);
    assert(r@.args =~= seq!["log"@, "-1"@, "--pretty=%B"@]);
    r
}

/// `git fetch <remote>`.
pub fn fetch_from_remote_command(remote: &str) -> (r: Command)
    ensures
        r@ == git(seq!["fetch"@, remote@], true),
{
    let r = git_command(vec![arg("fetch"), arg(remote)], true);
    assert(r@.args =~= seq!["fetch"@, remote@]);
    r
}

/// `git rev-parse --abbrev-ref @{upstream}`: succeeds when the branch has an upstream.
pub fn has_upstream_command() -> (r: Command)
    ensures
        r@ == git(seq!["rev-parse"@, "--abbrev-ref"@, "@{upstream}"@], true),
{
    let r = git_command(vec![arg("rev-parse"), arg("--abbrev-ref"), arg("@{upstream}")], true);
    assert(r@.args =~= seq!["rev-parse"@, "--abbrev-ref"@, "@{upstream}"@]);
    r
}

/// `git remote`: the names of the remotes, one per line.
pub fn remotes_command() -> (r: Command)
    ensures
        r@ == git(seq!["remote"@], true),
{
    let r = git_command(vec![arg("remote")], true);
    assert(r@.args =~= seq!["remote"@]);
    r
}

/// `git push -u <remote> <branch>`.
pub fn push_with_upstream_command(remote: &str, branch: &str) -> (r: Command)
    ensures
        r@ == git(seq!["push"@, "-u"@, remote@, branch@], true),
{
    let r = git_command(vec![arg("push"), arg("-u"), arg(remote), arg(branch)], true);
    assert(r@.args =~= seq!["push"@, "-u"@, remote@, branch@]);
    r
}

/// `git branch --set-upstream-to <remote>/<branch>`.
pub fn set_upstream_command(remote: &str, branch: &str) -> (r: Command)
    ensures
        r@ == git(seq!["branch"@, "--set-upstream-to"@, remote@ + "/"@ + branch@], true),
{
    let r = git_command(vec![arg("branch"), arg("--set-upstream-to"), upstream_target(remote, branch)], true);
    assert(r@.args =~= seq!["branch"@, "--set-upstream-to"@, remote@ + "/"@ + branch@]);
    r
}

/// `git pull <remote> <branch>`.
pub fn pull_from_remote_command(remote: &str, branch: &str) -> (r: Command)
    ensures
        r@ == git(seq!["pull"@, remote@, branch@], true),
{
    let r = git_command(vec![arg("pull"), arg(remote), arg(branch)], true);
    assert(r@.args =~= seq!["pull"@, remote@, branch@]);
    r
}

/// `git diff` of one file: against the upstream when it has incoming
/// changes, else against HEAD.
pub fn diff_command(path: &str, has_incoming: bool) -> (r: Command)
    ensures
        r@ == git(
            seq![
                "diff"@,
                if has_incoming { "HEAD...@{upstream}"@ } else { "HEAD"@ },
                "--"@,
                path@,
            ],
            true,
        ),
{
    let base = if has_incoming { arg("HEAD...@{upstream}") } else { arg("HEAD") };
    let r = git_command(vec![arg("diff"), base, arg("--"), arg(path)], true);
    assert(r@.args =~= seq![
        "diff"@,
        if has_incoming { "HEAD...@{upstream}"@ } else { "HEAD"@ },
        "--"@,
        path@,
    ]);
    r
}

} // verus!
