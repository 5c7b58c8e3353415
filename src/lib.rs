//! Decision logic of `tf`, a front-end to `terraform`: rewriting `.envrc` for
//! a new environment, checking the required environment variables, and
//! building the argument list each subcommand hands terraform.

pub mod commands;
pub mod envrc;
pub mod lines;

pub use commands::{
    apply, check_env, destroy, dispatch, init, plan, var_file_path, Apply, Commands, Destroy,
    EnvConfig, EnvError, Plan, Step,
};
pub use envrc::{contains_bytes, set_env, EnvrcError, SetEnv};
pub use lines::LineIterator;
