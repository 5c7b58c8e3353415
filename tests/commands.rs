use tf::{
    apply, check_env, destroy, dispatch, init, plan, var_file_path, Apply, Commands, Destroy,
    EnvConfig, EnvError, Plan, SetEnv, Step,
};

fn cfg(env: Option<&str>, profile: Option<&str>) -> EnvConfig {
    EnvConfig { env: env.map(|s| s.to_string()), aws_profile: profile.map(|s| s.to_string()) }
}

fn strs(v: &[&str]) -> Vec<String> {
    v.iter().map(|s| s.to_string()).collect()
}

#[test]
fn plan_builds_var_file_argument() {
    let c = cfg(Some("staging"), Some("default"));
    assert_eq!(plan(&c).unwrap(), strs(&["plan", "-var-file", "envs/staging/main.tfvars"]));
}

#[test]
fn destroy_builds_var_file_argument() {
    let c = cfg(Some("staging"), Some("default"));
    assert_eq!(destroy(&c).unwrap(), strs(&["destroy", "-var-file", "envs/staging/main.tfvars"]));
}

#[test]
fn init_builds_backend_config_argument() {
    let c = cfg(Some("prod"), Some("ops"));
    assert_eq!(
        init(&c).unwrap(),
        strs(&["init", "-backend-config", "envs/prod/terraform_state.tfvars"])
    );
}

#[test]
fn apply_with_y_appends_auto_approve() {
    let c = cfg(Some("dev"), Some("default"));
    let yes = apply(&Apply { auto_approve: true }, &c).unwrap();
    assert_eq!(yes, strs(&["apply", "-var-file", "envs/dev/main.tfvars", "--auto-approve"]));
}

#[test]
fn apply_without_y_has_no_auto_approve() {
    let c = cfg(Some("dev"), Some("default"));
    let no = apply(&Apply { auto_approve: false }, &c).unwrap();
    assert_eq!(no, strs(&["apply", "-var-file", "envs/dev/main.tfvars"]));
}

#[test]
fn guarded_commands_fail_without_env() {
    let c = cfg(None, Some("default"));
    assert_eq!(plan(&c), Err(EnvError::MissingEnv));
    assert_eq!(destroy(&c), Err(EnvError::MissingEnv));
    assert_eq!(init(&c), Err(EnvError::MissingEnv));
    assert_eq!(apply(&Apply { auto_approve: true }, &c), Err(EnvError::MissingEnv));
}

#[test]
fn guarded_commands_fail_without_aws_profile() {
    let c = cfg(Some("dev"), None);
    assert_eq!(plan(&c), Err(EnvError::MissingAwsProfile));
    assert_eq!(destroy(&c), Err(EnvError::MissingAwsProfile));
    assert_eq!(init(&c), Err(EnvError::MissingAwsProfile));
    assert_eq!(apply(&Apply { auto_approve: false }, &c), Err(EnvError::MissingAwsProfile));
}

#[test]
fn check_env_reports_env_first() {
    assert_eq!(check_env(&cfg(None, None)), Err(EnvError::MissingEnv));
    assert_eq!(check_env(&cfg(Some(""), Some(""))), Ok(()));
    assert_eq!(EnvError::MissingEnv.message(), "ENV var not set");
    assert_eq!(EnvError::MissingAwsProfile.message(), "AWS_PROFILE var not set");
}

#[test]
fn var_file_path_joins_parts() {
    assert_eq!(var_file_path("qa", "main.tfvars"), "envs/qa/main.tfvars");
}

#[test]
fn dispatch_plan_scenario() {
    let c = cfg(Some("staging"), Some("default"));
    match dispatch(&Commands::Plan(Plan {}), &c) {
        Ok(Step::Terraform(a)) => {
            assert_eq!(a, strs(&["plan", "-var-file", "envs/staging/main.tfvars"]))
        }
        _ => panic!("expected a terraform run"),
    }
}

#[test]
fn dispatch_set_env_needs_no_environment() {
    let c = cfg(None, None);
    let cmd = Commands::SetEnv(SetEnv { new_env: "prod".to_string() });
    match dispatch(&cmd, &c) {
        Ok(Step::SetEnv(e)) => assert_eq!(e, "prod"),
        _ => panic!("expected set-env"),
    }
}

#[test]
fn dispatch_guarded_commands_fail_before_running() {
    let c = cfg(Some("dev"), None);
    for cmd in [
        Commands::Plan(Plan {}),
        Commands::Apply(Apply { auto_approve: true }),
        Commands::Destroy(Destroy {}),
        Commands::Init,
    ] {
        assert!(matches!(dispatch(&cmd, &c), Err(EnvError::MissingAwsProfile)));
    }
}

#[test]
fn dispatch_destroy_and_init() {
    let c = cfg(Some("prod"), Some("p"));
    match dispatch(&Commands::Destroy(Destroy {}), &c) {
        Ok(Step::Terraform(a)) => {
            assert_eq!(a, strs(&["destroy", "-var-file", "envs/prod/main.tfvars"]))
        }
        _ => panic!("expected a terraform run"),
    }
    match dispatch(&Commands::Init, &c) {
        Ok(Step::Terraform(a)) => {
            assert_eq!(a, strs(&["init", "-backend-config", "envs/prod/terraform_state.tfvars"]))
        }
        _ => panic!("expected a terraform run"),
    }
}
