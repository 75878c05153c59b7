use pytest_fixtures_lsp::runner::{
    detect, fixtures_command, PipenvRunner, PoetryRunner, ProjectLayout, PytestRunner, RunnerKind,
    SystemRunner, UvRunner, VenvRunner,
};

fn layout(uv: bool, poetry: bool, pipenv: bool, dot_venv: bool, venv: bool) -> ProjectLayout {
    ProjectLayout {
        uv_lock: uv,
        poetry_lock: poetry,
        pipfile_lock: pipenv,
        dot_venv_pytest: dot_venv,
        venv_pytest: venv,
    }
}

#[test]
fn detection_follows_the_priority_order() {
    assert_eq!(detect(&layout(true, true, true, true, true)).name(), "uv");
    assert_eq!(detect(&layout(false, true, true, true, true)).name(), "poetry");
    assert_eq!(detect(&layout(false, false, true, true, false)).name(), "pipenv");
    assert_eq!(detect(&layout(false, false, false, false, true)).name(), "venv");
    assert_eq!(detect(&layout(false, false, false, true, false)).name(), "venv");
    assert_eq!(detect(&layout(false, false, false, false, false)).name(), "system");
}

#[test]
fn the_chosen_runner_suits_and_no_earlier_one_does() {
    let all = [RunnerKind::Uv, RunnerKind::Poetry, RunnerKind::Pipenv, RunnerKind::Venv, RunnerKind::System];
    for bits in 0..32u32 {
        let l = layout(bits & 1 != 0, bits & 2 != 0, bits & 4 != 0, bits & 8 != 0, bits & 16 != 0);
        let chosen = detect(&l);
        assert!(chosen.detect(&l));
        let pos = all.iter().position(|k| k.name() == chosen.name()).unwrap();
        for k in &all[..pos] {
            assert!(!k.detect(&l));
        }
    }
}

#[test]
fn commands_of_each_runner() {
    let l = layout(false, false, false, true, true);
    assert_eq!(UvRunner.command("/p", &l), ("uv".to_string(), vec!["run".to_string(), "pytest".to_string()]));
    assert_eq!(PoetryRunner.command("/p", &l).0, "poetry");
    assert_eq!(PipenvRunner.command("/p", &l).1, vec!["run".to_string(), "pytest".to_string()]);
    assert_eq!(SystemRunner.command("/p", &l), ("pytest".to_string(), vec![]));
    assert_eq!(VenvRunner.command("/p", &l), ("/p/.venv/bin/pytest".to_string(), vec![]));
    let only_venv = layout(false, false, false, false, true);
    assert_eq!(VenvRunner.command("/p/", &only_venv).0, "/p/venv/bin/pytest");
    assert_eq!(VenvRunner.command("", &only_venv).0, "venv/bin/pytest");
    assert!(VenvRunner.detect(&only_venv));
    assert!(!UvRunner.detect(&only_venv));
    assert!(SystemRunner.detect(&only_venv));
}

#[test]
fn fixtures_command_appends_the_listing_flags() {
    let l = layout(true, false, false, false, false);
    let (cmd, args) = fixtures_command(&detect(&l), "/p", &l);
    assert_eq!(cmd, "uv");
    assert_eq!(args, vec!["run", "pytest", "--fixtures", "-q"]);
    let (cmd, args) = fixtures_command(&SystemRunner, "/p", &l);
    assert_eq!(cmd, "pytest");
    assert_eq!(args, vec!["--fixtures", "-q"]);
}
