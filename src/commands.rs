use vstd::prelude::*;
use crate::envrc::SetEnv;

verus! {

/// What the commands read from the process environment: `ENV` and
/// `AWS_PROFILE`, each `None` where it is not set.
pub struct EnvConfig {
    pub env: Option<String>,
    pub aws_profile: Option<String>,
}

/// A required environment variable that is not set.
#[derive(Debug, Clone, Copy, PartialEq, Eq, Structural)]
pub enum EnvError {
    MissingEnv,
    MissingAwsProfile,
}

impl EnvError {
    /// A message that names the missing variable.
    pub fn message(&self) -> (r: String)
        ensures
            *self == EnvError::MissingEnv ==> r@ == "ENV var not set"@,
            *self == EnvError::MissingAwsProfile ==> r@ == "AWS_PROFILE var not set"@,
    {
        match self {
            EnvError::MissingEnv => String::from_str("ENV var not set"),
            EnvError::MissingAwsProfile => String::from_str("AWS_PROFILE var not set"),
        }
    }
}

/// The first required variable that is missing, `ENV` before `AWS_PROFILE`.
pub open spec fn missing(cfg: &EnvConfig) -> Option<EnvError> {
    if cfg.env is None {
        Some(EnvError::MissingEnv)
    } else if cfg.aws_profile is None {
        Some(EnvError::MissingAwsProfile)
    } else {
        None
    }
}

/// Fails unless both `ENV` and `AWS_PROFILE` are set; their values are not
/// inspected.
pub fn check_env(cfg: &EnvConfig) -> (r: Result<(), EnvError>)
    ensures
        match missing(cfg) {
            Some(e) => r == Err::<(), EnvError>(e),
            None => r is Ok,
        },
{
    if cfg.env.is_none() {
        return Err(EnvError::MissingEnv);
    }
    if cfg.aws_profile.is_none() {
        return Err(EnvError::MissingAwsProfile);
    }
    Ok(())
}

/// `envs/<env>/<file>`.
pub open spec fn var_file(env: Seq<char>, file: Seq<char>) -> Seq<char> {
    "envs/"@ + env + "/"@ + file
}

/// The path of `file` in the directory of environment `env`, with `/` as
/// separator.
pub fn var_file_path(env: &str, file: &str) -> (r: String)
    ensures
        r@ == var_file(env@, file@),
{
    let mut r = String::from_str("envs/");
    r.append(env);
    r.append("/");
    r.append(file);
    r
}

/// The views of a list of arguments.
pub open spec fn arg_views(a: Seq<String>) -> Seq<Seq<char>> {
    a.map_values(|s: String| s@)
}

/// `plan -var-file envs/<env>/main.tfvars`.
pub open spec fn plan_args(env: Seq<char>) -> Seq<Seq<char>> {
    seq!["plan"@, "-var-file"@, var_file(env, "main.tfvars"@)]
}

/// `apply -var-file envs/<env>/main.tfvars`, then `--auto-approve` where asked.
pub open spec fn apply_args(env: Seq<char>, auto_approve: bool) -> Seq<Seq<char>> {
    let base = seq!["apply"@, "-var-file"@, var_file(env, "main.tfvars"@)];
    if auto_approve {
        base.push("--auto-approve"@)
    } else {
        base
    }
}

/// `destroy -var-file envs/<env>/main.tfvars`.
pub open spec fn destroy_args(env: Seq<char>) -> Seq<Seq<char>> {
    seq!["destroy"@, "-var-file"@, var_file(env, "main.tfvars"@)]
}

/// `init -backend-config envs/<env>/terraform_state.tfvars`.
pub open spec fn init_args(env: Seq<char>) -> Seq<Seq<char>> {
    seq!["init"@, "-backend-config"@, var_file(env, "terraform_state.tfvars"@)]
}

/// What a guarded command owes: the missing variable as its error, else the
/// argument list `args` for terraform.
pub open spec fn guarded(cfg: &EnvConfig, r: Result<Vec<String>, EnvError>, args: Seq<Seq<char>>) -> bool {
    match missing(cfg) {
        Some(e) => r == Err::<Vec<String>, EnvError>(e),
        None => r matches Ok(a) && arg_views(a@) == args,
    }
}

fn three_args(a: &str, b: &str, c: String) -> (r: Vec<String>)
    ensures
        arg_views(r@) == seq![a@, b@, c@],
{
    let mut r: Vec<String> = Vec::new();
    r.push(String::from_str(a));
    r.push(String::from_str(b));
    r.push(c);
    assert(arg_views(r@) == seq![a@, b@, c@]);
    r
}

/// Arguments for `terraform plan` with the variable file of `ENV`.
pub fn plan(cfg: &EnvConfig) -> (r: Result<Vec<String>, EnvError>)
    ensures
        guarded(cfg, r, plan_args(cfg.env->Some_0@)),
{
    match check_env(cfg) {
        Err(e) => Err(e),
        Ok(()) => {
            let env = cfg.env.as_ref().unwrap();
            Ok(three_args("plan", "-var-file", var_file_path(env.as_str(), "main.tfvars")))
        },
    }
}

/// The `apply` command; `auto_approve` is its `-y` flag.
pub struct Apply {
    pub auto_approve: bool,
}

/// Arguments for `terraform apply` with the variable file of `ENV`, and
/// `--auto-approve` at the end where `-y` was given. This runs `apply`, the
/// subcommand the name says; only `destroy` ever destroys.
pub fn apply(opts: &Apply, cfg: &EnvConfig) -> (r: Result<Vec<String>, EnvError>)
    ensures
        guarded(cfg, r, apply_args(cfg.env->Some_0@, opts.auto_approve)),
{
    match check_env(cfg) {
        Err(e) => Err(e),
        Ok(()) => {
            let env = cfg.env.as_ref().unwrap();
            let mut args = three_args("apply", "-var-file", var_file_path(env.as_str(), "main.tfvars"));
            if opts.auto_approve {
                args.push(String::from_str("--auto-approve"));
            }
            assert(arg_views(args@) == apply_args(env@, opts.auto_approve));
            Ok(args)
        },
    }
}

/// Arguments for `terraform destroy` with the variable file of `ENV`.
pub fn destroy(cfg: &EnvConfig) -> (r: Result<Vec<String>, EnvError>)
    ensures
        guarded(cfg, r, destroy_args(cfg.env->Some_0@)),
{
    match check_env(cfg) {
        Err(e) => Err(e),
        Ok(()) => {
            let env = cfg.env.as_ref().unwrap();
            Ok(three_args("destroy", "-var-file", var_file_path(env.as_str(), "main.tfvars")))
        },
    }
}

/// Arguments for `terraform init` with the backend settings of `ENV`.
pub fn init(cfg: &EnvConfig) -> (r: Result<Vec<String>, EnvError>)
    ensures
        guarded(cfg, r, init_args(cfg.env->Some_0@)),
{
    match check_env(cfg) {
        Err(e) => Err(e),
        Ok(()) => {
            let env = cfg.env.as_ref().unwrap();
            Ok(
                three_args(
                    "init",
                    "-backend-config",
                    var_file_path(env.as_str(), "terraform_state.tfvars"),
                ),
            )
        },
    }
}

/// `-y` adds `--auto-approve` at the end of the `apply` arguments and changes
/// nothing else.
pub proof fn lemma_auto_approve_appends(env: Seq<char>)
    ensures
        apply_args(env, true) == apply_args(env, false).push("--auto-approve"@),
        apply_args(env, true).len() == 4,
        apply_args(env, false).len() == 3,
{
}

/// The `plan` command.
pub struct Plan {}

/// The `destroy` command.
pub struct Destroy {}

/// The commands of `tf`.
pub enum Commands {
    SetEnv(SetEnv),
    Plan(Plan),
    Apply(Apply),
    Destroy(Destroy),
    Init,
}

/// What to do for a command.
pub enum Step {
    /// Rewrite `.envrc` for this environment and drop `.terraform`.
    SetEnv(String),
    /// Run terraform with these arguments.
    Terraform(Vec<String>),
}

/// The arguments a guarded command hands terraform when `ENV` is `env`.
pub open spec fn command_args(cmd: &Commands, env: Seq<char>) -> Seq<Seq<char>> {
    match cmd {
        Commands::Plan(_) => plan_args(env),
        Commands::Apply(a) => apply_args(env, a.auto_approve),
        Commands::Destroy(_) => destroy_args(env),
        _ => init_args(env),
    }
}

/// Decides what a command does. `set-env` needs no environment; every other
/// command fails with the missing variable before anything is run, and
/// otherwise runs terraform with its argument list.
pub fn dispatch(cmd: &Commands, cfg: &EnvConfig) -> (r: Result<Step, EnvError>)
    ensures
        cmd matches Commands::SetEnv(o) ==> r matches Ok(Step::SetEnv(n)) && n@ == o.new_env@,
        !(cmd is SetEnv) ==> match missing(cfg) {
            Some(e) => r == Err::<Step, EnvError>(e),
            None => r matches Ok(Step::Terraform(a)) && arg_views(a@) == command_args(cmd, cfg.env->Some_0@),
        },
{
    match cmd {
        Commands::SetEnv(o) => Ok(Step::SetEnv(o.new_env.clone())),
        Commands::Plan(_) => match plan(cfg) {
            Ok(a) => Ok(Step::Terraform(a)),
            Err(e) => Err(e),
        },
        Commands::Apply(o) => match apply(o, cfg) {
            Ok(a) => Ok(Step::Terraform(a)),
            Err(e) => Err(e),
        },
        Commands::Destroy(_) => match destroy(cfg) {
            Ok(a) => Ok(Step::Terraform(a)),
            Err(e) => Err(e),
        },
        Commands::Init => match init(cfg) {
            Ok(a) => Ok(Step::Terraform(a)),
            Err(e) => Err(e),
        },
    }
}

} // verus!
