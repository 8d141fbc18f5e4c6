# shell

A small Unix shell and a `cat` utility, written in Verus.

`src/` is the verified library:

- `lexer`: splits a command line at Unicode whitespace and classifies the
  words (`<`, `>`, `>>`, `|`, `&&`, `||`, `;`, plain words).
- `parser`: the state machine that turns tokens into command groups, with
  the proof that every result is well formed.
- `grammar`: writing a command list back as tokens and text, and the proof
  that a well-formed list written out parses back to itself.
- `fields`: the proof that a successful parse keeps every word that is not
  an operator or a redirection target, in order, and gives each command the
  redirections written among its own words.
- `commands`: commands, pipe chains, redirections and argument vectors.
- `config`: the environment (distinct names, insertion order), `PATH`
  splitting and program lookup. The environment is a vector of name/value
  pairs with the invariant that no name occurs twice, rather than a
  `HashMap`: with string keys, Verus's specification of `HashMap` proves
  little about lookups, while the vector lets every lookup, update and the
  order of the entries passed to programs be stated and proved.
- `executor`: built-in names, program resolution, pipe and redirection
  decisions, group status and the order in which groups run.
- `builtin`: `cd` on the environment.
- `file`: how redirection files are opened.
- `cat`: line numbering, squeezing of blank lines, and visible tabs, line
  ends and control characters.
- `shell_core`: the shell's state.

`app/` holds the programs: the interactive loop, processes, pipes and files
(through `nix` and std), and the command line of `cat` (through `clap`). The
binary runs `cat` when started under that name and the shell otherwise.
