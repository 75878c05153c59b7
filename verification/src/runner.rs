//! How pytest is run in a project: the runner kinds, the files that reveal
//! each, and the order in which they are tried.

use vstd::prelude::*;
use crate::text::{join_path, joined_path, string_views};

verus! {

/// Which of the files that mark a kind of Python project exist under the
/// project's root directory.
#[derive(Clone, Copy, Debug)]
pub struct ProjectLayout {
    /// `uv.lock`
    pub uv_lock: bool,
    /// `poetry.lock`
    pub poetry_lock: bool,
    /// `Pipfile.lock`
    pub pipfile_lock: bool,
    /// `.venv/bin/pytest`
    pub dot_venv_pytest: bool,
    /// `venv/bin/pytest`
    pub venv_pytest: bool,
}

/// Strategy for running pytest in different project types.
pub trait PytestRunner: Send + Sync {
    /// The runner's name.
    spec fn label(&self) -> Seq<char>;

    /// Whether the runner suits a project with the given layout.
    spec fn suits(&self, layout: ProjectLayout) -> bool;

    /// The program that runs pytest.
    spec fn program(&self, root_dir: Seq<char>, layout: ProjectLayout) -> Seq<char>;

    /// The arguments that come before pytest's own.
    spec fn leading_args(&self) -> Seq<Seq<char>>;

    fn name(&self) -> (r: &'static str)
        ensures
            r@ == self.label(),
    ;

    fn detect(&self, layout: &ProjectLayout) -> (r: bool)
        ensures
            r == self.suits(*layout),
    ;

    fn command(&self, root_dir: &str, layout: &ProjectLayout) -> (r: (String, Vec<String>))
        ensures
            r.0@ == self.program(root_dir@, *layout),
            string_views(r.1@) == self.leading_args(),
    ;
}

pub struct UvRunner;

pub struct PoetryRunner;

pub struct PipenvRunner;

pub struct VenvRunner;

pub struct SystemRunner;

/// `["run", "pytest"]`
pub open spec fn run_pytest_args() -> Seq<Seq<char>> {
    seq!["run"@, "pytest"@]
}

fn run_pytest() -> (v: Vec<String>)
    ensures
        string_views(v@) == run_pytest_args(),
{
    let mut v: Vec<String> = Vec::new();
    v.push("run".to_string());
    v.push("pytest".to_string());
    assert(string_views(v@) =~= run_pytest_args());
    v
}

impl PytestRunner for UvRunner {
    open spec fn label(&self) -> Seq<char> {
        "uv"@
    }

    open spec fn suits(&self, layout: ProjectLayout) -> bool {
        layout.uv_lock
    }

    open spec fn program(&self, root_dir: Seq<char>, layout: ProjectLayout) -> Seq<char> {
        "uv"@
    }

    open spec fn leading_args(&self) -> Seq<Seq<char>> {
        run_pytest_args()
    }

    fn name(&self) -> (r: &'static str) {
        "uv"
    }

    fn detect(&self, layout: &ProjectLayout) -> (r: bool) {
        layout.uv_lock
    }

    fn command(&self, root_dir: &str, layout: &ProjectLayout) -> (r: (String, Vec<String>)) {
        ("uv".to_string(), run_pytest())
    }
}


impl PytestRunner for PoetryRunner {
    open spec fn label(&self) -> Seq<char> {
        "poetry"@
    }

    open spec fn suits(&self, layout: ProjectLayout) -> bool {
        layout.poetry_lock
    }

    open spec fn program(&self, root_dir: Seq<char>, layout: ProjectLayout) -> Seq<char> {
        "poetry"@
    }

    open spec fn leading_args(&self) -> Seq<Seq<char>> {
        run_pytest_args()
    }

    fn name(&self) -> (r: &'static str) {
        "poetry"
    }

    fn detect(&self, layout: &ProjectLayout) -> (r: bool) {
        layout.poetry_lock
    }

    fn command(&self, root_dir: &str, layout: &ProjectLayout) -> (r: (String, Vec<String>)) {
        ("poetry".to_string(), run_pytest())
    }
}

impl PytestRunner for PipenvRunner {
    open spec fn label(&self) -> Seq<char> {
        "pipenv"@
    }

    open spec fn suits(&self, layout: ProjectLayout) -> bool {
        layout.pipfile_lock
    }

    open spec fn program(&self, root_dir: Seq<char>, layout: ProjectLayout) -> Seq<char> {
        "pipenv"@
    }

    open spec fn leading_args(&self) -> Seq<Seq<char>> {
        run_pytest_args()
    }

    fn name(&self) -> (r: &'static str) {
        "pipenv"
    }

    fn detect(&self, layout: &ProjectLayout) -> (r: bool) {
        layout.pipfile_lock
    }

    fn command(&self, root_dir: &str, layout: &ProjectLayout) -> (r: (String, Vec<String>)) {
        ("pipenv".to_string(), run_pytest())
    }
}

/// `.venv/bin/pytest`
pub open spec fn dot_venv_pytest() -> Seq<char> {
    ".venv/bin/pytest"@
}

/// `venv/bin/pytest`
pub open spec fn venv_pytest() -> Seq<char> {
    "venv/bin/pytest"@
}

impl PytestRunner for VenvRunner {
    open spec fn label(&self) -> Seq<char> {
        "venv"@
    }

    open spec fn suits(&self, layout: ProjectLayout) -> bool {
        layout.dot_venv_pytest || layout.venv_pytest
    }

    /// The project's `.venv` pytest where it exists, else its `venv` pytest.
    open spec fn program(&self, root_dir: Seq<char>, layout: ProjectLayout) -> Seq<char> {
        if layout.dot_venv_pytest {
            joined_path(root_dir, dot_venv_pytest())
        } else {
            joined_path(root_dir, venv_pytest())
        }
    }

    open spec fn leading_args(&self) -> Seq<Seq<char>> {
        seq![]
    }

    fn name(&self) -> (r: &'static str) {
        "venv"
    }

    fn detect(&self, layout: &ProjectLayout) -> (r: bool) {
        layout.dot_venv_pytest || layout.venv_pytest
    }

    fn command(&self, root_dir: &str, layout: &ProjectLayout) -> (r: (String, Vec<String>)) {
        let pytest = if layout.dot_venv_pytest {
            join_path(root_dir, ".venv/bin/pytest")
        } else {
            join_path(root_dir, "venv/bin/pytest")
        };
        let args: Vec<String> = Vec::new();
        assert(string_views(args@) =~= seq![]);
        (pytest, args)
    }
}

impl PytestRunner for SystemRunner {
    open spec fn label(&self) -> Seq<char> {
        "system"@
    }

    open spec fn suits(&self, layout: ProjectLayout) -> bool {
        true
    }

    open spec fn program(&self, root_dir: Seq<char>, layout: ProjectLayout) -> Seq<char> {
        "pytest"@
    }

    open spec fn leading_args(&self) -> Seq<Seq<char>> {
        seq![]
    }

    fn name(&self) -> (r: &'static str) {
        "system"
    }

    fn detect(&self, layout: &ProjectLayout) -> (r: bool) {
        true
    }

    fn command(&self, root_dir: &str, layout: &ProjectLayout) -> (r: (String, Vec<String>)) {
        let args: Vec<String> = Vec::new();
        assert(string_views(args@) =~= seq![]);
        ("pytest".to_string(), args)
    }
}

/// The runner chosen for a project: one of the five kinds.
#[derive(Clone, Copy, Debug)]
pub enum RunnerKind {
    Uv,
    Poetry,
    Pipenv,
    Venv,
    System,
}

/// The rank of each kind in the order in which they are tried.
pub open spec fn rank(k: RunnerKind) -> nat {
    match k {
        RunnerKind::Uv => 0,
        RunnerKind::Poetry => 1,
        RunnerKind::Pipenv => 2,
        RunnerKind::Venv => 3,
        RunnerKind::System => 4,
    }
}

impl PytestRunner for RunnerKind {
    open spec fn label(&self) -> Seq<char> {
        match self {
            RunnerKind::Uv => UvRunner.label(),
            RunnerKind::Poetry => PoetryRunner.label(),
            RunnerKind::Pipenv => PipenvRunner.label(),
            RunnerKind::Venv => VenvRunner.label(),
            RunnerKind::System => SystemRunner.label(),
        }
    }

    open spec fn suits(&self, layout: ProjectLayout) -> bool {
        match self {
            RunnerKind::Uv => UvRunner.suits(layout),
            RunnerKind::Poetry => PoetryRunner.suits(layout),
            RunnerKind::Pipenv => PipenvRunner.suits(layout),
            RunnerKind::Venv => VenvRunner.suits(layout),
            RunnerKind::System => SystemRunner.suits(layout),
        }
    }

    open spec fn program(&self, root_dir: Seq<char>, layout: ProjectLayout) -> Seq<char> {
        match self {
            RunnerKind::Uv => UvRunner.program(root_dir, layout),
            RunnerKind::Poetry => PoetryRunner.program(root_dir, layout),
            RunnerKind::Pipenv => PipenvRunner.program(root_dir, layout),
            RunnerKind::Venv => VenvRunner.program(root_dir, layout),
            RunnerKind::System => SystemRunner.program(root_dir, layout),
        }
    }

    open spec fn leading_args(&self) -> Seq<Seq<char>> {
        match self {
            RunnerKind::Uv => UvRunner.leading_args(),
            RunnerKind::Poetry => PoetryRunner.leading_args(),
            RunnerKind::Pipenv => PipenvRunner.leading_args(),
            RunnerKind::Venv => VenvRunner.leading_args(),
            RunnerKind::System => SystemRunner.leading_args(),
        }
    }

    fn name(&self) -> (r: &'static str) {
        match self {
            RunnerKind::Uv => UvRunner.name(),
            RunnerKind::Poetry => PoetryRunner.name(),
            RunnerKind::Pipenv => PipenvRunner.name(),
            RunnerKind::Venv => VenvRunner.name(),
            RunnerKind::System => SystemRunner.name(),
        }
    }

    fn detect(&self, layout: &ProjectLayout) -> (r: bool) {
        match self {
            RunnerKind::Uv => UvRunner.detect(layout),
            RunnerKind::Poetry => PoetryRunner.detect(layout),
            RunnerKind::Pipenv => PipenvRunner.detect(layout),
            RunnerKind::Venv => VenvRunner.detect(layout),
            RunnerKind::System => SystemRunner.detect(layout),
        }
    }

    fn command(&self, root_dir: &str, layout: &ProjectLayout) -> (r: (String, Vec<String>)) {
        match self {
            RunnerKind::Uv => UvRunner.command(root_dir, layout),
            RunnerKind::Poetry => PoetryRunner.command(root_dir, layout),
            RunnerKind::Pipenv => PipenvRunner.command(root_dir, layout),
            RunnerKind::Venv => VenvRunner.command(root_dir, layout),
            RunnerKind::System => SystemRunner.command(root_dir, layout),
        }
    }
}

/// Each runner kind runs the command of the tool it is named after: uv and
/// poetry and pipenv run `<tool> run pytest`, the venv kind runs the
/// project's own pytest (the `.venv` one where it exists), and the system
/// kind runs `pytest`, whatever the project's layout.
pub proof fn lemma_runner_kinds_run_their_own_tool(root_dir: Seq<char>, layout: ProjectLayout)
    ensures
        RunnerKind::Uv.label() == "uv"@,
        RunnerKind::Uv.program(root_dir, layout) == "uv"@,
        RunnerKind::Uv.leading_args() == seq!["run"@, "pytest"@],
        RunnerKind::Poetry.label() == "poetry"@,
        RunnerKind::Poetry.program(root_dir, layout) == "poetry"@,
        RunnerKind::Poetry.leading_args() == seq!["run"@, "pytest"@],
        RunnerKind::Pipenv.label() == "pipenv"@,
        RunnerKind::Pipenv.program(root_dir, layout) == "pipenv"@,
        RunnerKind::Pipenv.leading_args() == seq!["run"@, "pytest"@],
        RunnerKind::Venv.label() == "venv"@,
        layout.dot_venv_pytest ==> RunnerKind::Venv.program(root_dir, layout) == joined_path(
            root_dir,
            ".venv/bin/pytest"@,
        ),
        !layout.dot_venv_pytest ==> RunnerKind::Venv.program(root_dir, layout) == joined_path(
            root_dir,
            "venv/bin/pytest"@,
        ),
        RunnerKind::Venv.leading_args() == Seq::<Seq<char>>::empty(),
        RunnerKind::System.label() == "system"@,
        RunnerKind::System.program(root_dir, layout) == "pytest"@,
        RunnerKind::System.leading_args() == Seq::<Seq<char>>::empty(),
{
}

/// The runner of the first kind, in the order uv, poetry, pipenv, venv,
/// system, that suits the layout.
pub open spec fn chosen_runner(layout: ProjectLayout) -> RunnerKind {
    if layout.uv_lock {
        RunnerKind::Uv
    } else if layout.poetry_lock {
        RunnerKind::Poetry
    } else if layout.pipfile_lock {
        RunnerKind::Pipenv
    } else if layout.dot_venv_pytest || layout.venv_pytest {
        RunnerKind::Venv
    } else {
        RunnerKind::System
    }
}

proof fn lemma_first_suiting(layout: ProjectLayout, r: RunnerKind)
    requires
        r.suits(layout),
        forall|k: RunnerKind| rank(k) < rank(r) ==> !k.suits(layout),
    ensures
        r == chosen_runner(layout),
{
    assert(RunnerKind::Uv.suits(layout) == layout.uv_lock);
    assert(RunnerKind::Poetry.suits(layout) == layout.poetry_lock);
    assert(RunnerKind::Pipenv.suits(layout) == layout.pipfile_lock);
    assert(RunnerKind::Venv.suits(layout) == (layout.dot_venv_pytest || layout.venv_pytest));
    if rank(r) > 0 {
        assert(rank(RunnerKind::Uv) < rank(r));
    }
    if rank(r) > 1 {
        assert(rank(RunnerKind::Poetry) < rank(r));
    }
    if rank(r) > 2 {
        assert(rank(RunnerKind::Pipenv) < rank(r));
    }
    if rank(r) > 3 {
        assert(rank(RunnerKind::Venv) < rank(r));
    }
}

/// Detect project type and return the appropriate runner.
/// Priority: uv > poetry > pipenv > venv > system
pub fn detect(layout: &ProjectLayout) -> (r: RunnerKind)
    ensures
        r == chosen_runner(*layout),
        r.suits(*layout),
        forall|k: RunnerKind| rank(k) < rank(r) ==> !k.suits(*layout),
{
    let kinds = [
        RunnerKind::Uv,
        RunnerKind::Poetry,
        RunnerKind::Pipenv,
        RunnerKind::Venv,
        RunnerKind::System,
    ];
    let mut i: usize = 0;
    while i < 4
        invariant
            i <= 4,
            kinds@ == seq![
                RunnerKind::Uv,
                RunnerKind::Poetry,
                RunnerKind::Pipenv,
                RunnerKind::Venv,
                RunnerKind::System,
            ],
            forall|j: int| 0 <= j < 5 ==> rank(#[trigger] kinds@[j]) == j,
            forall|k: RunnerKind| rank(k) < i ==> !k.suits(*layout),
        decreases 4 - i,
    {
        let k = kinds[i];
        assert(rank(k) == i);
        if k.detect(layout) {
            proof {
                lemma_first_suiting(*layout, k);
            }
            return k;
        }
        i = i + 1;
    }
    proof {
        lemma_first_suiting(*layout, RunnerKind::System);
    }
    RunnerKind::System
}

/// The program and arguments that list a project's fixtures: the runner's
/// command followed by `--fixtures -q`.
pub fn fixtures_command<R: PytestRunner>(runner: &R, root_dir: &str, layout: &ProjectLayout) -> (r: (
    String,
    Vec<String>,
))
    ensures
        r.0@ == runner.program(root_dir@, *layout),
        string_views(r.1@) == runner.leading_args() + seq!["--fixtures"@, "-q"@],
{
    let (cmd, base_args) = runner.command(root_dir, layout);
    let mut args = base_args;
    args.push("--fixtures".to_string());
    args.push("-q".to_string());
    assert(string_views(args@) =~= runner.leading_args() + seq!["--fixtures"@, "-q"@]);
    (cmd, args)
}

} // verus!
