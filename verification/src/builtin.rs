//! The built-in command `cd`, as far as the environment goes.

use vstd::prelude::*;
use crate::config::{ConfigError, ShellConfig, keys_distinct, lemma_set_var, lookup, set_var};
use crate::executor::ExecError;

verus! {

/// The name `HOME`.
pub open spec fn home_key() -> Seq<char> {
    seq!['H', 'O', 'M', 'E']
}

/// The name `PWD`.
pub open spec fn pwd_key() -> Seq<char> {
    seq!['P', 'W', 'D']
}

/// The name `OLDPWD`.
pub open spec fn oldpwd_key() -> Seq<char> {
    seq!['O', 'L', 'D', 'P', 'W', 'D']
}

/// An error naming a variable that is not set.
pub open spec fn missing_var(r: Result<(), ExecError>, key: Seq<char>) -> bool {
    r matches Err(ExecError::ConfigError(ConfigError::EnvKeyNotFound(k))) && k@ == key
}

/// Moving to `target`: `PWD` becomes `target` and `OLDPWD` the former `PWD`.
pub open spec fn moved_to(vs: Seq<(Seq<char>, Seq<char>)>, target: Seq<char>, old_pwd: Seq<char>) -> Seq<(Seq<char>, Seq<char>)> {
    set_var(set_var(vs, pwd_key(), target), oldpwd_key(), old_pwd)
}

fn key_string(lit: &str) -> (r: String)
    ensures
        r@ == lit@,
{
    lit.to_owned()
}

/// Moves the working directory recorded in the environment to `target`;
/// refused, with the environment unchanged, when `PWD` is not set.
fn move_to(config: &mut ShellConfig, target: String) -> (r: Result<(), ExecError>)
    ensures
        match lookup(old(config).vars(), pwd_key()) {
            None => missing_var(r, pwd_key()) && final(config).vars() == old(config).vars(),
            Some(p) => r is Ok && final(config).vars() == moved_to(old(config).vars(), target@, p),
        },
{
    proof {
        reveal_strlit("PWD");
        reveal_strlit("OLDPWD");
        assert("PWD"@ =~= pwd_key());
        assert("OLDPWD"@ =~= oldpwd_key());
    }
    let pwd = key_string("PWD");
    let old_pwd = match config.var(&pwd) {
        Some(p) => p.clone(),
        None => {
            return Err(ExecError::ConfigError(ConfigError::EnvKeyNotFound(pwd)));
        },
    };
    config.set_env(pwd, target);
    config.set_env(key_string("OLDPWD"), old_pwd);
    Ok(())
}

/// `cd` without arguments: `PWD` becomes `HOME` and `OLDPWD` the former
/// `PWD`. A missing `HOME`, then a missing `PWD`, is an error that leaves
/// the environment unchanged.
pub fn set_home(config: &mut ShellConfig) -> (r: Result<(), ExecError>)
    ensures
        match (lookup(old(config).vars(), home_key()), lookup(old(config).vars(), pwd_key())) {
            (None, _) => missing_var(r, home_key()) && final(config).vars() == old(config).vars(),
            (Some(_), None) => missing_var(r, pwd_key()) && final(config).vars() == old(config).vars(),
            (Some(h), Some(p)) => r is Ok && final(config).vars() == moved_to(old(config).vars(), h, p),
        },
{
    proof {
        reveal_strlit("HOME");
        assert("HOME"@ =~= home_key());
    }
    let home_name = key_string("HOME");
    let home = match config.var(&home_name) {
        Some(h) => h.clone(),
        None => {
            return Err(ExecError::ConfigError(ConfigError::EnvKeyNotFound(home_name)));
        },
    };
    move_to(config, home)
}

/// `cd` with its arguments: none moves to `HOME`, one moves to the
/// directory given, more are refused with the message
/// `cd: Too many arguments` and no change.
pub fn change_directory(config: &mut ShellConfig, args: Vec<String>) -> (r: Result<(), ExecError>)
    ensures
        args@.len() == 0 ==> match (lookup(old(config).vars(), home_key()), lookup(old(config).vars(), pwd_key())) {
            (None, _) => missing_var(r, home_key()) && final(config).vars() == old(config).vars(),
            (Some(_), None) => missing_var(r, pwd_key()) && final(config).vars() == old(config).vars(),
            (Some(h), Some(p)) => r is Ok && final(config).vars() == moved_to(old(config).vars(), h, p),
        },
        args@.len() == 1 ==> match lookup(old(config).vars(), pwd_key()) {
            None => missing_var(r, pwd_key()) && final(config).vars() == old(config).vars(),
            Some(p) => r is Ok && final(config).vars() == moved_to(old(config).vars(), args@[0]@, p),
        },
        args@.len() > 1 ==> (r matches Err(ExecError::ArgError(m)) && m@ == "cd: Too many arguments"@
            && final(config).vars() == old(config).vars()),
{
    if args.len() == 0 {
        set_home(config)
    } else if args.len() == 1 {
        let target = args[0].clone();
        move_to(config, target)
    } else {
        Err(ExecError::ArgError(key_string("cd: Too many arguments")))
    }
}


/// After a move, `PWD` holds the target, `OLDPWD` the directory left, and
/// every other variable is unchanged.
pub proof fn lemma_moved_to(vs: Seq<(Seq<char>, Seq<char>)>, target: Seq<char>, old_pwd: Seq<char>)
    requires
        keys_distinct(vs),
    ensures
        lookup(moved_to(vs, target, old_pwd), pwd_key()) == Some(target),
        lookup(moved_to(vs, target, old_pwd), oldpwd_key()) == Some(old_pwd),
        forall|k: Seq<char>| k != pwd_key() && k != oldpwd_key() ==> #[trigger] lookup(moved_to(vs, target, old_pwd), k) == lookup(vs, k),
{
    lemma_set_var(vs, pwd_key(), target);
    let v1 = set_var(vs, pwd_key(), target);
    lemma_set_var(v1, oldpwd_key(), old_pwd);
    assert(pwd_key() != oldpwd_key()) by {
        assert(pwd_key().len() != oldpwd_key().len());
    }
}

} // verus!
