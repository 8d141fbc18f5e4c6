//! Writing a command list back as tokens and as text, and the law that
//! ties this to the parser: a well-formed command list written out parses
//! back to itself.

use vstd::prelude::*;
use crate::commands::{CommandOperator, CommandType, SpecCommand, SpecGroup, SpecInput, SpecOutput, empty_command, empty_group};
use crate::lexer::{SpecToken, classify, classify_all, is_whitespace, lemma_whitespace_separates, split_words, tokenize};
use crate::parser::{ParseCfg, ParserState, parse_input, groups_well_formed, group_well_formed, command_in_chain, parse_tokens, initial_cfg, run, step};

verus! {

/// A word that the lexer keeps as a word: non-empty, free of whitespace and
/// not the spelling of an operator.
pub open spec fn plain_word(w: Seq<char>) -> bool {
    &&& w.len() > 0
    &&& forall|i: int| 0 <= i < w.len() ==> !is_whitespace(#[trigger] w[i])
    &&& classify(w) == SpecToken::Word(w)
}

/// The tokens of a sequence of words.
pub open spec fn word_tokens(ws: Seq<Seq<char>>) -> Seq<SpecToken> {
    ws.map_values(|w: Seq<char>| SpecToken::Word(w))
}

/// The tokens of one command: its program, its arguments, then its input
/// file and its output file, if it has them.
pub open spec fn render_command(c: SpecCommand) -> Seq<SpecToken> {
    seq![SpecToken::Word(c.program)] + word_tokens(c.args) + match c.stdin {
        SpecInput::File(f) => seq![SpecToken::FileIN, SpecToken::Word(f)],
        _ => Seq::empty(),
    } + match c.stdout {
        SpecOutput::File(f) => seq![SpecToken::FileOUT, SpecToken::Word(f)],
        SpecOutput::AppendFile(f) => seq![SpecToken::FileAppend, SpecToken::Word(f)],
        _ => Seq::empty(),
    }
}

/// The tokens of a pipe chain: its commands joined by `|`.
pub open spec fn render_chain(cs: Seq<SpecCommand>) -> Seq<SpecToken>
    decreases cs.len(),
{
    if cs.len() == 0 {
        Seq::empty()
    } else if cs.len() == 1 {
        render_command(cs[0])
    } else {
        render_command(cs[0]) + seq![SpecToken::Pipe] + render_chain(cs.drop_first())
    }
}

/// The token of an operator.
pub open spec fn operator_token(op: CommandOperator) -> SpecToken {
    match op {
        CommandOperator::Or => SpecToken::Or,
        CommandOperator::And => SpecToken::And,
        CommandOperator::Sequence => SpecToken::Sequence,
    }
}

/// The tokens of a command list: each group's chain followed by its
/// operator.
pub open spec fn render_groups(gs: Seq<SpecGroup>) -> Seq<SpecToken>
    decreases gs.len(),
{
    if gs.len() == 0 {
        Seq::empty()
    } else {
        render_chain(gs[0].commands) + match gs[0].next {
            Some(op) => seq![operator_token(op)],
            None => Seq::empty(),
        } + render_groups(gs.drop_first())
    }
}

/// Every word of a command is plain.
pub open spec fn command_words_plain(c: SpecCommand) -> bool {
    &&& plain_word(c.program)
    &&& forall|i: int| 0 <= i < c.args.len() ==> plain_word(#[trigger] c.args[i])
    &&& (c.stdin matches SpecInput::File(f) ==> plain_word(f))
    &&& (c.stdout matches SpecOutput::File(f) ==> plain_word(f))
    &&& (c.stdout matches SpecOutput::AppendFile(f) ==> plain_word(f))
}

/// A command list that can be written out: well formed, with plain words.
pub open spec fn renderable(gs: Seq<SpecGroup>) -> bool {
    &&& groups_well_formed(gs)
    &&& forall|k: int, j: int| 0 <= k < gs.len() && 0 <= j < gs[k].commands.len() ==> command_words_plain(#[trigger] gs[k].commands[j])
}

/// Running a sequence of tokens in two parts.
pub proof fn lemma_run_append(c: ParseCfg, a: Seq<SpecToken>, b: Seq<SpecToken>)
    ensures
        run(c, a + b) == match run(c, a) {
            Ok(c2) => run(c2, b),
            Err(e) => Err(e),
        },
    decreases a.len(),
{
    if a.len() == 0 {
        assert(a + b =~= b);
    } else {
        assert((a + b)[0] == a[0]);
        assert((a + b).drop_first() =~= a.drop_first() + b);
        match step(c, a[0]) {
            Ok(c2) => lemma_run_append(c2, a.drop_first(), b),
            Err(_) => {},
        }
    }
}

/// Arguments are collected one after the other.
proof fn lemma_run_args(c: ParseCfg, b: Seq<Seq<char>>)
    requires
        c.state == ParserState::Arg,
    ensures
        run(c, word_tokens(b)) == Ok::<ParseCfg, crate::parser::ParseError>(ParseCfg { command: SpecCommand { args: c.command.args + b, ..c.command }, ..c }),
    decreases b.len(),
{
    if b.len() == 0 {
        assert(c.command.args + b =~= c.command.args);
        assert(word_tokens(b) =~= Seq::<SpecToken>::empty());
    } else {
        let c2 = ParseCfg { command: SpecCommand { args: c.command.args.push(b[0]), ..c.command }, ..c };
        assert(word_tokens(b)[0] == SpecToken::Word(b[0]));
        assert(step(c, SpecToken::Word(b[0])) == Ok::<ParseCfg, crate::parser::ParseError>(c2));
        assert(word_tokens(b).drop_first() =~= word_tokens(b.drop_first()));
        lemma_run_args(c2, b.drop_first());
        assert(c.command.args.push(b[0]) + b.drop_first() =~= c.command.args + b);
    }
}


/// The command as the parser holds it before a following pipe sets its
/// output.
pub open spec fn unpiped(c: SpecCommand) -> SpecCommand {
    SpecCommand {
        stdout: if c.stdout is Pipe {
            SpecOutput::Inherit
        } else {
            c.stdout
        },
        ..c
    }
}

/// The command the parser starts from for `c`: empty, reading from a pipe
/// exactly when `c` does.
pub open spec fn start_command(c: SpecCommand) -> SpecCommand {
    SpecCommand {
        stdin: if c.stdin is Pipe {
            SpecInput::Pipe
        } else {
            SpecInput::Inherit
        },
        ..empty_command()
    }
}

proof fn lemma_run_two(c: ParseCfg, x: SpecToken, y: SpecToken)
    ensures
        run(c, seq![x, y]) == match step(c, x) {
            Ok(c1) => match step(c1, y) {
                Ok(c2) => Ok(c2),
                Err(e) => Err(e),
            },
            Err(e) => Err(e),
        },
{
    reveal_with_fuel(run, 3);
    assert(seq![x, y].drop_first() =~= seq![y]);
    assert(seq![y].drop_first() =~= Seq::<SpecToken>::empty());
}

proof fn lemma_run_one(c: ParseCfg, x: SpecToken)
    ensures
        run(c, seq![x]) == match step(c, x) {
            Ok(c1) => Ok(c1),
            Err(e) => Err(e),
        },
{
    reveal_with_fuel(run, 2);
    assert(seq![x].drop_first() =~= Seq::<SpecToken>::empty());
}

/// The tokens of one command, from the start of a command, leave the
/// parser expecting more of that command, which it holds whole.
proof fn lemma_run_command(cfg: ParseCfg, c: SpecCommand)
    requires
        cfg.state == ParserState::Command,
        cfg.command == start_command(c),
        command_words_plain(c),
        c.kind == CommandType::Unknown,
    ensures
        run(cfg, render_command(c)) == Ok::<ParseCfg, crate::parser::ParseError>(ParseCfg { state: ParserState::Arg, command: unpiped(c), ..cfg }),
{
    let t1: Seq<SpecToken> = seq![SpecToken::Word(c.program)];
    let t2 = word_tokens(c.args);
    let t3: Seq<SpecToken> = match c.stdin {
        SpecInput::File(f) => seq![SpecToken::FileIN, SpecToken::Word(f)],
        _ => Seq::empty(),
    };
    let t4: Seq<SpecToken> = match c.stdout {
        SpecOutput::File(f) => seq![SpecToken::FileOUT, SpecToken::Word(f)],
        SpecOutput::AppendFile(f) => seq![SpecToken::FileAppend, SpecToken::Word(f)],
        _ => Seq::empty(),
    };
    assert(render_command(c) == t1 + t2 + t3 + t4);
    lemma_run_append(cfg, t1 + t2 + t3, t4);
    lemma_run_append(cfg, t1 + t2, t3);
    lemma_run_append(cfg, t1, t2);
    // the program
    let c1 = ParseCfg { state: ParserState::Arg, command: SpecCommand { program: c.program, ..cfg.command }, ..cfg };
    lemma_run_one(cfg, SpecToken::Word(c.program));
    assert(run(cfg, t1) == Ok::<ParseCfg, crate::parser::ParseError>(c1));
    // the arguments
    lemma_run_args(c1, c.args);
    let c2 = ParseCfg { command: SpecCommand { args: c1.command.args + c.args, ..c1.command }, ..c1 };
    assert(c1.command.args + c.args =~= c.args);
    // the input file
    let c3 = match c.stdin {
        SpecInput::File(f) => ParseCfg { command: SpecCommand { stdin: SpecInput::File(f), ..c2.command }, ..c2 },
        _ => c2,
    };
    match c.stdin {
        SpecInput::File(f) => {
            lemma_run_two(c2, SpecToken::FileIN, SpecToken::Word(f));
        },
        _ => {
            assert(run(c2, t3) == Ok::<ParseCfg, crate::parser::ParseError>(c2));
        },
    }
    assert(run(c2, t3) == Ok::<ParseCfg, crate::parser::ParseError>(c3));
    // the output file
    let c4 = match c.stdout {
        SpecOutput::File(f) => ParseCfg { command: SpecCommand { stdout: SpecOutput::File(f), ..c3.command }, ..c3 },
        SpecOutput::AppendFile(f) => ParseCfg { command: SpecCommand { stdout: SpecOutput::AppendFile(f), ..c3.command }, ..c3 },
        _ => c3,
    };
    match c.stdout {
        SpecOutput::File(f) => {
            lemma_run_two(c3, SpecToken::FileOUT, SpecToken::Word(f));
        },
        SpecOutput::AppendFile(f) => {
            lemma_run_two(c3, SpecToken::FileAppend, SpecToken::Word(f));
        },
        _ => {
            assert(run(c3, t4) == Ok::<ParseCfg, crate::parser::ParseError>(c3));
        },
    }
    assert(run(c3, t4) == Ok::<ParseCfg, crate::parser::ParseError>(c4));
    assert(c4 == ParseCfg { state: ParserState::Arg, command: unpiped(c), ..cfg });
}


/// The commands of a pipe chain from position `j` on leave the parser on the
/// last command of the chain, with the others collected in the group.
proof fn lemma_run_chain(cfg: ParseCfg, cs: Seq<SpecCommand>, j: int)
    requires
        0 <= j < cs.len(),
        forall|i: int| 0 <= i < cs.len() ==> command_in_chain(#[trigger] cs[i], i, cs.len() as int),
        forall|i: int| 0 <= i < cs.len() ==> command_words_plain(#[trigger] cs[i]),
        cfg.state == ParserState::Command,
        cfg.group.commands == cs.take(j),
        cfg.command == start_command(cs[j]),
    ensures
        run(cfg, render_chain(cs.skip(j))) == Ok::<ParseCfg, crate::parser::ParseError>(ParseCfg {
            state: ParserState::Arg,
            group: SpecGroup { commands: cs.take(cs.len() - 1), ..cfg.group },
            command: unpiped(cs[cs.len() - 1]),
            ..cfg
        }),
    decreases cs.len() - j,
{
    let n = cs.len() as int;
    let rest = cs.skip(j);
    assert(rest[0] == cs[j]);
    assert(command_in_chain(cs[j], j, n));
    assert(command_words_plain(cs[j]));
    lemma_run_command(cfg, cs[j]);
    let c1 = ParseCfg { state: ParserState::Arg, command: unpiped(cs[j]), ..cfg };
    if n - j == 1 {
        assert(render_chain(rest) == render_command(cs[j]));
    } else {
        assert(rest.drop_first() =~= cs.skip(j + 1));
        assert(render_chain(rest) == render_command(cs[j]) + seq![SpecToken::Pipe] + render_chain(cs.skip(j + 1)));
        lemma_run_append(cfg, render_command(cs[j]) + seq![SpecToken::Pipe], render_chain(cs.skip(j + 1)));
        lemma_run_append(cfg, render_command(cs[j]), seq![SpecToken::Pipe]);
        lemma_run_one(c1, SpecToken::Pipe);
        assert(command_in_chain(cs[j + 1], j + 1, n));
        let c2 = ParseCfg {
            state: ParserState::Command,
            groups: cfg.groups,
            group: SpecGroup { commands: cfg.group.commands.push(SpecCommand { stdout: SpecOutput::Pipe, ..unpiped(cs[j]) }), ..cfg.group },
            command: SpecCommand { stdin: SpecInput::Pipe, ..empty_command() },
        };
        assert(step(c1, SpecToken::Pipe) == Ok::<ParseCfg, crate::parser::ParseError>(c2));
        assert(SpecCommand { stdout: SpecOutput::Pipe, ..unpiped(cs[j]) } == cs[j]);
        assert(cfg.group.commands.push(cs[j]) =~= cs.take(j + 1));
        assert(c2.command == start_command(cs[j + 1]));
        lemma_run_chain(c2, cs, j + 1);
    }
}

/// The groups of a command list from position `k` on leave the parser on
/// the last command of the last group, with everything before collected.
proof fn lemma_run_groups(cfg: ParseCfg, gs: Seq<SpecGroup>, k: int)
    requires
        renderable(gs),
        0 <= k < gs.len(),
        cfg == (ParseCfg { state: ParserState::Command, groups: gs.take(k), group: empty_group(), command: empty_command() }),
    ensures
        run(cfg, render_groups(gs.skip(k))) == Ok::<ParseCfg, crate::parser::ParseError>(ParseCfg {
            state: ParserState::Arg,
            groups: gs.take(gs.len() - 1),
            group: SpecGroup { commands: gs.last().commands.take(gs.last().commands.len() - 1), next: None },
            command: unpiped(gs.last().commands[gs.last().commands.len() - 1]),
        }),
    decreases gs.len() - k,
{
    let len = gs.len() as int;
    let g = gs[k];
    let cs = g.commands;
    let m = cs.len() as int;
    assert(group_well_formed(g, k == len - 1));
    assert forall|i: int| 0 <= i < cs.len() implies command_words_plain(#[trigger] cs[i]) by {
        assert(command_words_plain(gs[k].commands[i]));
    }
    assert(command_in_chain(cs[0], 0, m));
    assert(cs.take(0) =~= Seq::<SpecCommand>::empty());
    assert(cs.skip(0) =~= cs);
    assert(empty_command() == start_command(cs[0]));
    lemma_run_chain(cfg, cs, 0);
    let c1 = ParseCfg {
        state: ParserState::Arg,
        groups: gs.take(k),
        group: SpecGroup { commands: cs.take(m - 1), next: None },
        command: unpiped(cs[m - 1]),
    };
    let rest = gs.skip(k);
    assert(rest[0] == g);
    assert(rest.drop_first() =~= gs.skip(k + 1));
    let opt: Seq<SpecToken> = match g.next {
        Some(op) => seq![operator_token(op)],
        None => Seq::empty(),
    };
    assert(render_groups(rest) == render_chain(cs) + opt + render_groups(gs.skip(k + 1)));
    lemma_run_append(cfg, render_chain(cs) + opt, render_groups(gs.skip(k + 1)));
    lemma_run_append(cfg, render_chain(cs), opt);
    if k == len - 1 {
        assert(g.next is None);
        assert(gs.skip(k + 1) =~= Seq::<SpecGroup>::empty());
        assert(run(c1, opt) == Ok::<ParseCfg, crate::parser::ParseError>(c1));
    } else {
        let op = g.next->0;
        assert(command_in_chain(cs[m - 1], m - 1, m));
        assert(unpiped(cs[m - 1]) == cs[m - 1]);
        lemma_run_one(c1, operator_token(op));
        let c2 = ParseCfg {
            state: ParserState::Command,
            groups: gs.take(k).push(SpecGroup { commands: cs.take(m - 1).push(cs[m - 1]), next: Some(op) }),
            group: empty_group(),
            command: empty_command(),
        };
        assert(step(c1, operator_token(op)) == Ok::<ParseCfg, crate::parser::ParseError>(c2));
        assert(cs.take(m - 1).push(cs[m - 1]) =~= cs);
        assert(SpecGroup { commands: cs, next: Some(op) } == g);
        assert(gs.take(k).push(g) =~= gs.take(k + 1));
        lemma_run_groups(c2, gs, k + 1);
    }
}

/// A well-formed command list whose words are plain, written out as tokens,
/// parses back to itself.
pub proof fn lemma_render_parse_tokens(gs: Seq<SpecGroup>)
    requires
        renderable(gs),
    ensures
        parse_tokens(ParserState::Command, render_groups(gs)) == Ok::<Seq<SpecGroup>, crate::parser::ParseError>(gs),
{
    let cfg = initial_cfg(ParserState::Command);
    assert(gs.take(0) =~= Seq::<SpecGroup>::empty());
    assert(gs.skip(0) =~= gs);
    lemma_run_groups(cfg, gs, 0);
    let last = gs.last();
    let m = last.commands.len() as int;
    assert(group_well_formed(gs[gs.len() - 1], true));
    assert(command_in_chain(last.commands[m - 1], m - 1, m));
    assert(unpiped(last.commands[m - 1]) == last.commands[m - 1]);
    assert(command_words_plain(gs[gs.len() - 1].commands[m - 1]));
    assert(last.commands.take(m - 1).push(last.commands[m - 1]) =~= last.commands);
    assert(SpecGroup { commands: last.commands, next: None } == last);
    assert(gs.take(gs.len() - 1).push(last) =~= gs);
}


/// How a token is written.
pub open spec fn spell(t: SpecToken) -> Seq<char> {
    match t {
        SpecToken::Word(w) => w,
        SpecToken::FileIN => seq!['<'],
        SpecToken::FileOUT => seq!['>'],
        SpecToken::FileAppend => seq!['>', '>'],
        SpecToken::Pipe => seq!['|'],
        SpecToken::And => seq!['&', '&'],
        SpecToken::Or => seq!['|', '|'],
        SpecToken::Sequence => seq![';'],
    }
}

/// Words joined by single spaces.
pub open spec fn join_words(ws: Seq<Seq<char>>) -> Seq<char>
    decreases ws.len(),
{
    if ws.len() == 0 {
        Seq::empty()
    } else if ws.len() == 1 {
        ws[0]
    } else {
        join_words(ws.drop_last()) + seq![' '] + ws.last()
    }
}

/// A command list written as a line: its tokens spelled out and joined by
/// single spaces.
pub open spec fn render_text(gs: Seq<SpecGroup>) -> Seq<char> {
    join_words(render_groups(gs).map_values(|t: SpecToken| spell(t)))
}

/// Every word token is a plain word.
pub open spec fn tokens_plain(ts: Seq<SpecToken>) -> bool {
    forall|i: int| 0 <= i < ts.len() ==> (#[trigger] ts[i] matches SpecToken::Word(w) ==> plain_word(w))
}

/// A word free of whitespace is split into itself.
proof fn lemma_split_single(w: Seq<char>)
    requires
        forall|i: int| 0 <= i < w.len() ==> !is_whitespace(#[trigger] w[i]),
    ensures
        split_words(w) == (if w.len() == 0 {
            Seq::<Seq<char>>::empty()
        } else {
            seq![w]
        }),
    decreases w.len(),
{
    if w.len() > 0 {
        let d = w.drop_last();
        assert forall|i: int| 0 <= i < d.len() implies !is_whitespace(#[trigger] d[i]) by {
            assert(d[i] == w[i]);
        }
        lemma_split_single(d);
        assert(!is_whitespace(w.last()));
        if w.len() >= 2 {
            assert(!is_whitespace(w[w.len() - 2]));
            assert(d.push(w.last()) =~= w);
            assert(seq![d].update(0, d.push(w.last())) =~= seq![w]);
        } else {
            assert(seq![w.last()] =~= w);
            assert(Seq::<Seq<char>>::empty().push(seq![w.last()]) =~= seq![w]);
        }
    }
}

/// Non-empty words free of whitespace, joined by spaces, split back into
/// the same words.
pub proof fn lemma_split_join(ws: Seq<Seq<char>>)
    requires
        forall|k: int| 0 <= k < ws.len() ==> (#[trigger] ws[k]).len() > 0,
        forall|k: int, i: int| 0 <= k < ws.len() && 0 <= i < ws[k].len() ==> !is_whitespace(#[trigger] ws[k][i]),
    ensures
        split_words(join_words(ws)) == ws,
    decreases ws.len(),
{
    if ws.len() == 0 {
        assert(split_words(join_words(ws)) =~= ws);
    } else if ws.len() == 1 {
        assert forall|i: int| 0 <= i < ws[0].len() implies !is_whitespace(#[trigger] ws[0][i]) by {}
        lemma_split_single(ws[0]);
        assert(seq![ws[0]] =~= ws);
    } else {
        let d = ws.drop_last();
        assert forall|k: int| 0 <= k < d.len() implies (#[trigger] d[k]).len() > 0 by {
            assert(d[k] == ws[k]);
        }
        assert forall|k: int, i: int| 0 <= k < d.len() && 0 <= i < d[k].len() implies !is_whitespace(#[trigger] d[k][i]) by {
            assert(d[k] == ws[k]);
        }
        lemma_split_join(d);
        let l = ws.last();
        assert forall|i: int| 0 <= i < l.len() implies !is_whitespace(#[trigger] l[i]) by {
            assert(ws[ws.len() - 1] == l);
        }
        lemma_split_single(l);
        assert(is_whitespace(' '));
        lemma_whitespace_separates(join_words(d), ' ', l);
        assert(d + seq![l] =~= ws);
    }
}

proof fn lemma_tokens_plain_concat(a: Seq<SpecToken>, b: Seq<SpecToken>)
    requires
        tokens_plain(a),
        tokens_plain(b),
    ensures
        tokens_plain(a + b),
{
    assert forall|i: int| 0 <= i < (a + b).len() implies (#[trigger] (a + b)[i] matches SpecToken::Word(w) ==> plain_word(w)) by {
        if i < a.len() {
            assert((a + b)[i] == a[i]);
        } else {
            assert((a + b)[i] == b[i - a.len()]);
        }
    }
}

proof fn lemma_render_command_plain(c: SpecCommand)
    requires
        command_words_plain(c),
    ensures
        tokens_plain(render_command(c)),
{
    let t1: Seq<SpecToken> = seq![SpecToken::Word(c.program)];
    let t2 = word_tokens(c.args);
    let t3: Seq<SpecToken> = match c.stdin {
        SpecInput::File(f) => seq![SpecToken::FileIN, SpecToken::Word(f)],
        _ => Seq::empty(),
    };
    let t4: Seq<SpecToken> = match c.stdout {
        SpecOutput::File(f) => seq![SpecToken::FileOUT, SpecToken::Word(f)],
        SpecOutput::AppendFile(f) => seq![SpecToken::FileAppend, SpecToken::Word(f)],
        _ => Seq::empty(),
    };
    assert(tokens_plain(t1));
    assert(tokens_plain(t2)) by {
        assert forall|i: int| 0 <= i < t2.len() implies (#[trigger] t2[i] matches SpecToken::Word(w) ==> plain_word(w)) by {
            assert(t2[i] == SpecToken::Word(c.args[i]));
        }
    }
    assert(tokens_plain(t3));
    assert(tokens_plain(t4));
    lemma_tokens_plain_concat(t1, t2);
    lemma_tokens_plain_concat(t1 + t2, t3);
    lemma_tokens_plain_concat(t1 + t2 + t3, t4);
}

proof fn lemma_render_chain_plain(cs: Seq<SpecCommand>)
    requires
        forall|i: int| 0 <= i < cs.len() ==> command_words_plain(#[trigger] cs[i]),
    ensures
        tokens_plain(render_chain(cs)),
    decreases cs.len(),
{
    if cs.len() == 0 {
    } else {
        lemma_render_command_plain(cs[0]);
        if cs.len() > 1 {
            let d = cs.drop_first();
            assert forall|i: int| 0 <= i < d.len() implies command_words_plain(#[trigger] d[i]) by {
                assert(d[i] == cs[i + 1]);
            }
            lemma_render_chain_plain(d);
            assert(tokens_plain(seq![SpecToken::Pipe]));
            lemma_tokens_plain_concat(render_command(cs[0]), seq![SpecToken::Pipe]);
            lemma_tokens_plain_concat(render_command(cs[0]) + seq![SpecToken::Pipe], render_chain(d));
        }
    }
}

proof fn lemma_render_groups_plain(gs: Seq<SpecGroup>)
    requires
        forall|k: int, j: int| 0 <= k < gs.len() && 0 <= j < gs[k].commands.len() ==> command_words_plain(#[trigger] gs[k].commands[j]),
    ensures
        tokens_plain(render_groups(gs)),
    decreases gs.len(),
{
    if gs.len() > 0 {
        let cs = gs[0].commands;
        assert forall|i: int| 0 <= i < cs.len() implies command_words_plain(#[trigger] cs[i]) by {
            assert(command_words_plain(gs[0].commands[i]));
        }
        lemma_render_chain_plain(cs);
        let d = gs.drop_first();
        assert forall|k: int, j: int| 0 <= k < d.len() && 0 <= j < d[k].commands.len() implies command_words_plain(#[trigger] d[k].commands[j]) by {
            assert(d[k] == gs[k + 1]);
            assert(command_words_plain(gs[k + 1].commands[j]));
        }
        lemma_render_groups_plain(d);
        let opt: Seq<SpecToken> = match gs[0].next {
            Some(op) => seq![operator_token(op)],
            None => Seq::empty(),
        };
        assert(tokens_plain(opt));
        lemma_tokens_plain_concat(render_chain(cs), opt);
        lemma_tokens_plain_concat(render_chain(cs) + opt, render_groups(d));
    }
}

/// A token with a plain word is spelled as a non-empty, whitespace-free
/// word that reads back as the token.
proof fn lemma_spell(t: SpecToken)
    requires
        t matches SpecToken::Word(w) ==> plain_word(w),
    ensures
        spell(t).len() > 0,
        forall|i: int| 0 <= i < spell(t).len() ==> !is_whitespace(#[trigger] spell(t)[i]),
        classify(spell(t)) == t,
{
    let gt: Seq<char> = seq!['>'];
    let lt: Seq<char> = seq!['<'];
    let gg: Seq<char> = seq!['>', '>'];
    let bar: Seq<char> = seq!['|'];
    let amp: Seq<char> = seq!['&', '&'];
    let bb: Seq<char> = seq!['|', '|'];
    let semi: Seq<char> = seq![';'];
    match t {
        SpecToken::Word(w) => {},
        _ => {
            assert forall|i: int| 0 <= i < spell(t).len() implies !is_whitespace(#[trigger] spell(t)[i]) by {
                assert(spell(t)[i] == '<' || spell(t)[i] == '>' || spell(t)[i] == '|' || spell(t)[i] == '&' || spell(t)[i] == ';');
            }
            let s = spell(t);
            if s.len() == 1 {
                assert(s[0] != '>' ==> s != gt);
                assert(s[0] != '<' ==> s != lt);
                assert(s[0] != '|' ==> s != bar);
            } else {
                assert(s[0] != '>' ==> s != gg);
                assert(s[0] != '&' ==> s != amp);
            }
        },
    }
}

/// Tokens with plain words, spelled out and joined by spaces, are read back
/// as the same tokens.
pub proof fn lemma_tokenize_spelled(ts: Seq<SpecToken>)
    requires
        tokens_plain(ts),
    ensures
        tokenize(join_words(ts.map_values(|t: SpecToken| spell(t)))) == ts,
{
    let ws = ts.map_values(|t: SpecToken| spell(t));
    assert forall|k: int| 0 <= k < ws.len() implies (#[trigger] ws[k]).len() > 0 by {
        assert(ts[k] matches SpecToken::Word(w) ==> plain_word(w));
        lemma_spell(ts[k]);
    }
    assert forall|k: int, i: int| 0 <= k < ws.len() && 0 <= i < ws[k].len() implies !is_whitespace(#[trigger] ws[k][i]) by {
        assert(ts[k] matches SpecToken::Word(w) ==> plain_word(w));
        lemma_spell(ts[k]);
        assert(ws[k] == spell(ts[k]));
    }
    lemma_split_join(ws);
    assert forall|k: int| 0 <= k < ts.len() implies #[trigger] classify_all(ws)[k] == ts[k] by {
        assert(ts[k] matches SpecToken::Word(w) ==> plain_word(w));
        lemma_spell(ts[k]);
        assert(ws[k] == spell(ts[k]));
    }
    assert(classify_all(ws) =~= ts);
}

/// A well-formed command list whose words are plain, written as a line
/// with single spaces, parses back to itself.
pub proof fn lemma_render_parse(gs: Seq<SpecGroup>)
    requires
        renderable(gs),
    ensures
        parse_input(ParserState::Command, render_text(gs)) == Ok::<Seq<SpecGroup>, crate::parser::ParseError>(gs),
{
    lemma_render_groups_plain(gs);
    lemma_tokenize_spelled(render_groups(gs));
    lemma_render_parse_tokens(gs);
}

/// The tokens of one command with its output redirection written before
/// its input redirection.
pub open spec fn render_command_out_first(c: SpecCommand) -> Seq<SpecToken> {
    seq![SpecToken::Word(c.program)] + word_tokens(c.args) + match c.stdout {
        SpecOutput::File(f) => seq![SpecToken::FileOUT, SpecToken::Word(f)],
        SpecOutput::AppendFile(f) => seq![SpecToken::FileAppend, SpecToken::Word(f)],
        _ => Seq::empty(),
    } + match c.stdin {
        SpecInput::File(f) => seq![SpecToken::FileIN, SpecToken::Word(f)],
        _ => Seq::empty(),
    }
}

/// The redirections of a command may come in either order: a line holding
/// one command with plain words, with its output redirection (`>` or `>>`)
/// written before its input redirection (`<`), parses to that command alone,
/// just as the line with `<` first does.
pub proof fn lemma_redirections_in_either_order(c: SpecCommand)
    requires
        command_words_plain(c),
        c.kind == CommandType::Unknown,
        !(c.stdin is Pipe),
        !(c.stdout is Pipe),
    ensures
        parse_input(ParserState::Command, join_words(render_command_out_first(c).map_values(|t: SpecToken| spell(t))))
            == Ok::<Seq<SpecGroup>, crate::parser::ParseError>(seq![SpecGroup { commands: seq![c], next: None }]),
        parse_input(ParserState::Command, render_text(seq![SpecGroup { commands: seq![c], next: None }]))
            == Ok::<Seq<SpecGroup>, crate::parser::ParseError>(seq![SpecGroup { commands: seq![c], next: None }]),
{
    let cfg = initial_cfg(ParserState::Command);
    let t1: Seq<SpecToken> = seq![SpecToken::Word(c.program)];
    let t2 = word_tokens(c.args);
    let t4: Seq<SpecToken> = match c.stdout {
        SpecOutput::File(f) => seq![SpecToken::FileOUT, SpecToken::Word(f)],
        SpecOutput::AppendFile(f) => seq![SpecToken::FileAppend, SpecToken::Word(f)],
        _ => Seq::empty(),
    };
    let t3: Seq<SpecToken> = match c.stdin {
        SpecInput::File(f) => seq![SpecToken::FileIN, SpecToken::Word(f)],
        _ => Seq::empty(),
    };
    let toks = render_command_out_first(c);
    assert(toks == t1 + t2 + t4 + t3);
    lemma_run_append(cfg, t1 + t2 + t4, t3);
    lemma_run_append(cfg, t1 + t2, t4);
    lemma_run_append(cfg, t1, t2);
    // the program
    let c1 = ParseCfg { state: ParserState::Arg, command: SpecCommand { program: c.program, ..cfg.command }, ..cfg };
    lemma_run_one(cfg, SpecToken::Word(c.program));
    assert(run(cfg, t1) == Ok::<ParseCfg, crate::parser::ParseError>(c1));
    // the arguments
    lemma_run_args(c1, c.args);
    let c2 = ParseCfg { command: SpecCommand { args: c1.command.args + c.args, ..c1.command }, ..c1 };
    assert(c1.command.args + c.args =~= c.args);
    // the output file
    let c3 = match c.stdout {
        SpecOutput::File(f) => ParseCfg { command: SpecCommand { stdout: SpecOutput::File(f), ..c2.command }, ..c2 },
        SpecOutput::AppendFile(f) => ParseCfg { command: SpecCommand { stdout: SpecOutput::AppendFile(f), ..c2.command }, ..c2 },
        _ => c2,
    };
    match c.stdout {
        SpecOutput::File(f) => {
            lemma_run_two(c2, SpecToken::FileOUT, SpecToken::Word(f));
        },
        SpecOutput::AppendFile(f) => {
            lemma_run_two(c2, SpecToken::FileAppend, SpecToken::Word(f));
        },
        _ => {
            assert(run(c2, t4) == Ok::<ParseCfg, crate::parser::ParseError>(c2));
        },
    }
    assert(run(c2, t4) == Ok::<ParseCfg, crate::parser::ParseError>(c3));
    // the input file, accepted although the output is already redirected
    let c4 = match c.stdin {
        SpecInput::File(f) => ParseCfg { command: SpecCommand { stdin: SpecInput::File(f), ..c3.command }, ..c3 },
        _ => c3,
    };
    match c.stdin {
        SpecInput::File(f) => {
            lemma_run_two(c3, SpecToken::FileIN, SpecToken::Word(f));
        },
        _ => {
            assert(run(c3, t3) == Ok::<ParseCfg, crate::parser::ParseError>(c3));
        },
    }
    assert(run(c3, t3) == Ok::<ParseCfg, crate::parser::ParseError>(c4));
    assert(c4.command == c);
    assert(c4.state == ParserState::Arg);
    assert(c4.groups =~= Seq::<SpecGroup>::empty());
    assert(c4.group == empty_group());
    assert(empty_group().commands.push(c) =~= seq![c]);
    assert(parse_tokens(ParserState::Command, toks) == Ok::<Seq<SpecGroup>, crate::parser::ParseError>(seq![SpecGroup { commands: seq![c], next: None }]));
    // the text reads back as these tokens
    assert(tokens_plain(toks)) by {
        assert(tokens_plain(t1));
        assert forall|i: int| 0 <= i < t2.len() implies (#[trigger] t2[i] matches SpecToken::Word(w) ==> plain_word(w)) by {
            assert(t2[i] == SpecToken::Word(c.args[i]));
        }
        assert(tokens_plain(t3));
        assert(tokens_plain(t4));
        lemma_tokens_plain_concat(t1, t2);
        lemma_tokens_plain_concat(t1 + t2, t4);
        lemma_tokens_plain_concat(t1 + t2 + t4, t3);
    }
    lemma_tokenize_spelled(toks);
    // and the usual order too
    let gs = seq![SpecGroup { commands: seq![c], next: None }];
    assert(renderable(gs)) by {
        assert(command_in_chain(c, 0, 1));
        assert(group_well_formed(gs[0], true));
        assert forall|k: int, j: int| 0 <= k < gs.len() && 0 <= j < gs[k].commands.len() implies command_words_plain(#[trigger] gs[k].commands[j]) by {
            assert(gs[k].commands[j] == c);
        }
    }
    lemma_render_parse(gs);
}

} // verus!
