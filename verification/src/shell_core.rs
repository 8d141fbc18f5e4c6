//! The shell's state between command lines.

use vstd::prelude::*;
use crate::commands::{CommandGroup, SpecCommand, groups_view};
use crate::config::{ConfigError, ShellConfig, SpecConfigError, from_pairs, pairs_view};
use crate::executor::{kept_from, resolve_cmd, resolve_programs, resolved_before, shape_kept};

verus! {

/// The shell: its environment.
pub struct ShellCore {
    shell_config: ShellConfig,
}

impl ShellCore {
    /// The environment the shell works with.
    pub closed spec fn config(&self) -> ShellConfig {
        self.shell_config
    }

    /// A shell whose environment holds the given variables.
    pub fn new(vars: Vec<(String, String)>) -> (s: Self)
        ensures
            s.config().vars() == from_pairs(pairs_view(vars@)),
    {
        ShellCore { shell_config: ShellConfig::new(vars) }
    }

    /// Looks the program of every command of a command list up along the
    /// shell's `PATH`, built-in names included, in order, group by group,
    /// and replaces it by the path at which it is found; the kinds of the
    /// commands stay as they are. It stops at the first program that is not
    /// found, which is left as it was; the commands before it stay resolved
    /// and those after it untouched.
    pub fn resolve_path(&mut self, command_list: &mut Vec<CommandGroup>, executables: &Vec<String>) -> (r: Result<(), ConfigError>)
        ensures
            final(self).config() == old(self).config(),
            shape_kept(groups_view(old(command_list)@), groups_view(final(command_list)@)),
            r is Ok ==> resolved_before(old(self).config().vars(), executables.deep_view(), groups_view(old(command_list)@), groups_view(final(command_list)@), old(command_list)@.len() as int, 0, false),
            r matches Err(e) ==> exists|k0: int, j0: int| {
                &&& 0 <= k0 < old(command_list)@.len()
                &&& 0 <= j0 < groups_view(old(command_list)@)[k0].commands.len()
                &&& resolve_cmd(old(self).config().vars(), groups_view(old(command_list)@)[k0].commands[j0], executables.deep_view(), false) == Err::<SpecCommand, SpecConfigError>(e@)
                &&& #[trigger] groups_view(final(command_list)@)[k0].commands[j0] == groups_view(old(command_list)@)[k0].commands[j0]
                &&& resolved_before(old(self).config().vars(), executables.deep_view(), groups_view(old(command_list)@), groups_view(final(command_list)@), k0, j0, false)
                &&& kept_from(groups_view(old(command_list)@), groups_view(final(command_list)@), k0, j0, false)
            },
    {
        resolve_programs(&self.shell_config, command_list, executables, false)
    }
}

} // verus!
