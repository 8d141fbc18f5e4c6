//! Where the words of a command line go: the law that a successful parse
//! keeps every word that is not an operator or a redirection target, in
//! order, as programs and arguments, and gives each command exactly the
//! redirections written among its own words.

use vstd::prelude::*;
use crate::commands::{CommandType, SpecCommand, SpecGroup, SpecInput, SpecOutput, empty_command, empty_group};
use crate::lexer::SpecToken;
use crate::parser::{ParseCfg, ParserState, finish, initial_cfg, parse_input, run, step};

verus! {

/// `|`, `&&`, `||` and `;`: the tokens between commands.
pub open spec fn is_separator(t: SpecToken) -> bool {
    t is Pipe || t is And || t is Or || t is Sequence
}

/// `<`, `>` and `>>`: the tokens whose next word is a file name.
pub open spec fn is_redirect(t: SpecToken) -> bool {
    t is FileIN || t is FileOUT || t is FileAppend
}

/// The tokens of each command: the pieces between separators (there is
/// always one more piece than separators).
pub open spec fn segments(toks: Seq<SpecToken>) -> Seq<Seq<SpecToken>>
    decreases toks.len(),
{
    if toks.len() == 0 {
        seq![Seq::empty()]
    } else {
        let p = segments(toks.drop_last());
        if is_separator(toks.last()) {
            p.push(Seq::empty())
        } else {
            p.update(p.len() - 1, p.last().push(toks.last()))
        }
    }
}

/// The separators, in order.
pub open spec fn separators(toks: Seq<SpecToken>) -> Seq<SpecToken>
    decreases toks.len(),
{
    if toks.len() == 0 {
        Seq::empty()
    } else if is_separator(toks.last()) {
        separators(toks.drop_last()).push(toks.last())
    } else {
        separators(toks.drop_last())
    }
}

/// The fields: the words that are not the target of a redirection, in
/// order.
pub open spec fn fields(toks: Seq<SpecToken>) -> Seq<Seq<char>>
    decreases toks.len(),
{
    if toks.len() == 0 {
        Seq::empty()
    } else {
        let f = fields(toks.drop_last());
        match toks.last() {
            SpecToken::Word(w) => if toks.len() >= 2 && is_redirect(toks[toks.len() - 2]) {
                f
            } else {
                f.push(w)
            },
            _ => f,
        }
    }
}

/// The file named after the last `<` of a command's tokens.
pub open spec fn redirect_in(seg: Seq<SpecToken>) -> Option<Seq<char>>
    decreases seg.len(),
{
    if seg.len() == 0 {
        None
    } else if seg.len() >= 2 && seg[seg.len() - 2] is FileIN && seg.last() is Word {
        Some(seg.last()->Word_0)
    } else {
        redirect_in(seg.drop_last())
    }
}

/// The output named after the last `>` or `>>` of a command's tokens.
pub open spec fn redirect_out(seg: Seq<SpecToken>) -> Option<SpecOutput>
    decreases seg.len(),
{
    if seg.len() == 0 {
        None
    } else if seg.len() >= 2 && seg[seg.len() - 2] is FileOUT && seg.last() is Word {
        Some(SpecOutput::File(seg.last()->Word_0))
    } else if seg.len() >= 2 && seg[seg.len() - 2] is FileAppend && seg.last() is Word {
        Some(SpecOutput::AppendFile(seg.last()->Word_0))
    } else {
        redirect_out(seg.drop_last())
    }
}

/// The command that its own tokens describe: the first field is the
/// program, the other fields are the arguments, a redirection sets its
/// stream, and otherwise a pipe before or after it sets that stream.
pub open spec fn segment_command(seg: Seq<SpecToken>, piped_in: bool, piped_out: bool) -> SpecCommand {
    let f = fields(seg);
    SpecCommand {
        kind: CommandType::Unknown,
        program: if f.len() > 0 {
            f[0]
        } else {
            Seq::empty()
        },
        args: if f.len() > 0 {
            f.drop_first()
        } else {
            Seq::empty()
        },
        stdin: match redirect_in(seg) {
            Some(p) => SpecInput::File(p),
            None => if piped_in {
                SpecInput::Pipe
            } else {
                SpecInput::Inherit
            },
        },
        stdout: match redirect_out(seg) {
            Some(o) => o,
            None => if piped_out {
                SpecOutput::Pipe
            } else {
                SpecOutput::Inherit
            },
        },
    }
}

/// Command `m` of a line follows a pipe.
pub open spec fn piped_before(toks: Seq<SpecToken>, m: int) -> bool {
    m > 0 && separators(toks)[m - 1] is Pipe
}

/// Command `m` of a line is followed by a pipe.
pub open spec fn piped_after(toks: Seq<SpecToken>, m: int) -> bool {
    m < separators(toks).len() && separators(toks)[m] is Pipe
}

/// The commands of all groups, in order.
pub open spec fn flat_commands(gs: Seq<SpecGroup>) -> Seq<SpecCommand> {
    gs.map_values(|g: SpecGroup| g.commands).flatten()
}

/// The program and the arguments of each command, in order.
pub open spec fn command_words(cs: Seq<SpecCommand>) -> Seq<Seq<char>> {
    cs.map_values(|c: SpecCommand| seq![c.program] + c.args).flatten()
}

/// What holds between the parser's configuration and the tokens read so
/// far, when it started in the `Command` state.
pub open spec fn fields_inv(c: ParseCfg, p: Seq<SpecToken>) -> bool {
    let segs = segments(p);
    let seps = separators(p);
    let done = flat_commands(c.groups) + c.group.commands;
    let cur = segs.last();
    &&& segs.len() == done.len() + 1
    &&& seps.len() == done.len()
    &&& forall|m: int| 0 <= m < done.len() ==> {
        &&& #[trigger] done[m] == segment_command(segs[m], m > 0 && seps[m - 1] is Pipe, seps[m] is Pipe)
        &&& fields(segs[m]).len() > 0
    }
    &&& c.command == segment_command(cur, done.len() > 0 && seps.last() is Pipe, false)
    &&& (c.state == ParserState::Command <==> cur.len() == 0)
    &&& (c.state == ParserState::Arg <==> (cur.len() > 0 && cur.last() is Word))
    &&& (c.state == ParserState::ExpectIn <==> (cur.len() > 0 && cur.last() is FileIN))
    &&& (c.state == ParserState::ExpectOut <==> (cur.len() > 0 && cur.last() is FileOUT))
    &&& (c.state == ParserState::ExpectAppend <==> (cur.len() > 0 && cur.last() is FileAppend))
    &&& (c.state != ParserState::Command ==> fields(cur).len() > 0)
}


proof fn lemma_flat_push(gs: Seq<SpecGroup>, g: SpecGroup)
    ensures
        flat_commands(gs.push(g)) == flat_commands(gs) + g.commands,
{
    let a = gs.map_values(|x: SpecGroup| x.commands);
    assert(gs.push(g).map_values(|x: SpecGroup| x.commands) =~= a.push(g.commands));
    a.lemma_flatten_push(g.commands);
}

/// One more token that is not a separator: it joins the tokens of the
/// current command.
proof fn lemma_push_non_separator(p: Seq<SpecToken>, t: SpecToken)
    requires
        !is_separator(t),
    ensures
        segments(p.push(t)) == segments(p).update(segments(p).len() - 1, segments(p).last().push(t)),
        separators(p.push(t)) == separators(p),
        segments(p).len() > 0,
{
    assert(p.push(t).drop_last() =~= p);
    lemma_segments_nonempty(p);
}

/// One more separator: it starts the tokens of a new command.
proof fn lemma_push_separator(p: Seq<SpecToken>, t: SpecToken)
    requires
        is_separator(t),
    ensures
        segments(p.push(t)) == segments(p).push(Seq::empty()),
        separators(p.push(t)) == separators(p).push(t),
{
    assert(p.push(t).drop_last() =~= p);
}

proof fn lemma_segments_nonempty(p: Seq<SpecToken>)
    ensures
        segments(p).len() > 0,
    decreases p.len(),
{
    if p.len() > 0 {
        lemma_segments_nonempty(p.drop_last());
    }
}

/// The functions of a command's tokens, one token further.
proof fn lemma_segment_push(seg: Seq<SpecToken>, t: SpecToken)
    ensures
        fields(seg.push(t)) == match t {
            SpecToken::Word(w) => if seg.len() >= 1 && is_redirect(seg.last()) {
                fields(seg)
            } else {
                fields(seg).push(w)
            },
            _ => fields(seg),
        },
        redirect_in(seg.push(t)) == if seg.len() >= 1 && seg.last() is FileIN && t is Word {
            Some(t->Word_0)
        } else {
            redirect_in(seg)
        },
        redirect_out(seg.push(t)) == if seg.len() >= 1 && seg.last() is FileOUT && t is Word {
            Some(SpecOutput::File(t->Word_0))
        } else if seg.len() >= 1 && seg.last() is FileAppend && t is Word {
            Some(SpecOutput::AppendFile(t->Word_0))
        } else {
            redirect_out(seg)
        },
{
    let s2 = seg.push(t);
    assert(s2.drop_last() =~= seg);
    assert(s2.last() == t);
    if seg.len() >= 1 {
        assert(s2[s2.len() - 2] == seg.last());
    }
}


/// The command of no tokens.
proof fn lemma_empty_segment(pin: bool)
    ensures
        segment_command(Seq::empty(), pin, false) == (SpecCommand {
            stdin: if pin {
                SpecInput::Pipe
            } else {
                SpecInput::Inherit
            },
            ..empty_command()
        }),
{
    let e = Seq::<SpecToken>::empty();
    assert(fields(e) =~= Seq::<Seq<char>>::empty());
    assert(redirect_in(e) is None);
    assert(redirect_out(e) is None);
}

/// A redirected output is a file, written or appended to.
proof fn lemma_redirect_out_shape(seg: Seq<SpecToken>)
    ensures
        redirect_out(seg) matches Some(o) ==> (o is File || o is AppendFile),
    decreases seg.len(),
{
    if seg.len() > 0 {
        lemma_redirect_out_shape(seg.drop_last());
    }
}

proof fn lemma_step_fields(c: ParseCfg, p: Seq<SpecToken>, t: SpecToken)
    requires
        fields_inv(c, p),
        step(c, t) is Ok,
    ensures
        fields_inv(step(c, t)->Ok_0, p.push(t)),
{
    let c2 = step(c, t)->Ok_0;
    let p2 = p.push(t);
    let segs = segments(p);
    let seps = separators(p);
    let done = flat_commands(c.groups) + c.group.commands;
    let cur = segs.last();
    let pin = done.len() > 0 && seps.last() is Pipe;
    let cmd = c.command;
    let segs2 = segments(p2);
    let seps2 = separators(p2);
    let done2 = flat_commands(c2.groups) + c2.group.commands;
    if is_separator(t) {
        lemma_push_separator(p, t);
        assert(c.state == ParserState::Arg);
        assert(fields(cur).len() > 0);
        let closed = if t is Pipe {
            SpecCommand { stdout: SpecOutput::Pipe, ..cmd }
        } else {
            cmd
        };
        if t is Pipe {
            assert(c2.groups == c.groups);
            assert(c2.group.commands == c.group.commands.push(closed));
            assert(done2 =~= done.push(closed));
            lemma_redirect_out_shape(cur);
            assert(redirect_out(cur) is None);
            lemma_empty_segment(true);
        } else {
            let g = SpecGroup { commands: c.group.commands.push(cmd), next: crate::commands::operator_of(t) };
            assert(c2.groups == c.groups.push(g));
            assert(c2.group == empty_group());
            lemma_flat_push(c.groups, g);
            assert(done2 =~= done.push(closed));
            lemma_empty_segment(false);
        }
        assert(closed == segment_command(cur, pin, t is Pipe));
        assert forall|m: int| 0 <= m < done2.len() implies {
            &&& #[trigger] done2[m] == segment_command(segs2[m], m > 0 && seps2[m - 1] is Pipe, seps2[m] is Pipe)
            &&& fields(segs2[m]).len() > 0
        } by {
            assert(segs2[m] == segs[m]);
            assert(seps2[m] == if m < seps.len() { seps[m] } else { t });
            if m > 0 {
                assert(seps2[m - 1] == seps[m - 1]);
            }
            if m < done.len() {
                assert(done2[m] == done[m]);
            }
        }
        assert(segs2.last() == Seq::<SpecToken>::empty());
        assert(seps2.last() == t);
    } else {
        lemma_push_non_separator(p, t);
        lemma_segment_push(cur, t);
        assert(c2.groups == c.groups);
        assert(c2.group == c.group);
        assert(done2 == done);
        let cur2 = cur.push(t);
        assert(segs2.last() == cur2);
        assert forall|m: int| 0 <= m < done2.len() implies {
            &&& #[trigger] done2[m] == segment_command(segs2[m], m > 0 && seps2[m - 1] is Pipe, seps2[m] is Pipe)
            &&& fields(segs2[m]).len() > 0
        } by {
            assert(segs2[m] == segs[m]);
        }
        if cur.len() > 0 {
            assert(cur2[cur2.len() - 2] == cur.last());
        }
        assert(cur2.last() == t);
        if fields(cur).len() > 0 {
            assert(fields(cur).push(t->Word_0).drop_first() =~= fields(cur).drop_first().push(t->Word_0));
        } else if t is Word {
            assert(fields(cur).push(t->Word_0) =~= seq![t->Word_0]);
            assert(seq![t->Word_0].drop_first() =~= Seq::<Seq<char>>::empty());
        }
        assert(c2.command == segment_command(cur2, pin, false));
    }
}


proof fn lemma_run_fields(c: ParseCfg, p: Seq<SpecToken>, rest: Seq<SpecToken>)
    requires
        fields_inv(c, p),
    ensures
        run(c, rest) matches Ok(c2) ==> fields_inv(c2, p + rest),
    decreases rest.len(),
{
    if rest.len() == 0 {
        assert(p + rest =~= p);
    } else {
        match step(c, rest[0]) {
            Ok(c1) => {
                lemma_step_fields(c, p, rest[0]);
                lemma_run_fields(c1, p.push(rest[0]), rest.drop_first());
                assert(p.push(rest[0]) + rest.drop_first() =~= p + rest);
            },
            Err(_) => {},
        }
    }
}

/// The current command's tokens end where the line ends; when they are
/// empty, the line is empty or ends in a separator.
proof fn lemma_last_segment(toks: Seq<SpecToken>)
    ensures
        segments(toks).len() > 0,
        segments(toks).last().len() > 0 ==> toks.len() > 0 && segments(toks).last().last() == toks.last(),
        segments(toks).last().len() == 0 ==> toks.len() == 0 || is_separator(toks.last()),
{
    lemma_segments_nonempty(toks);
    if toks.len() > 0 {
        let t = toks.last();
        if is_separator(t) {
            lemma_push_separator(toks.drop_last(), t);
        } else {
            lemma_push_non_separator(toks.drop_last(), t);
        }
        assert(toks.drop_last().push(t) =~= toks);
    }
}

/// The fields of a line are the fields of its commands' tokens, one after
/// the other.
proof fn lemma_fields_segments(toks: Seq<SpecToken>)
    ensures
        fields(toks) == segments(toks).map_values(|s: Seq<SpecToken>| fields(s)).flatten(),
    decreases toks.len(),
{
    if toks.len() == 0 {
        let m = segments(toks).map_values(|s: Seq<SpecToken>| fields(s));
        assert(m =~= seq![Seq::<Seq<char>>::empty()]);
        m.lemma_flatten_singleton();
        assert(m.flatten() =~= fields(toks));
    } else {
        let d = toks.drop_last();
        let t = toks.last();
        assert(d.push(t) =~= toks);
        lemma_fields_segments(d);
        lemma_last_segment(d);
        let segd = segments(d);
        let md = segd.map_values(|s: Seq<SpecToken>| fields(s));
        let m = segments(toks).map_values(|s: Seq<SpecToken>| fields(s));
        if d.len() > 0 {
            assert(toks[toks.len() - 2] == d.last());
        }
        if is_separator(t) {
            lemma_push_separator(d, t);
            assert(m =~= md.push(Seq::empty()));
            md.lemma_flatten_push(Seq::empty());
            assert(md.flatten() + Seq::<Seq<char>>::empty() =~= md.flatten());
        } else {
            lemma_push_non_separator(d, t);
            let curd = segd.last();
            lemma_segment_push(curd, t);
            let init = md.drop_last();
            assert(md =~= init.push(fields(curd)));
            assert(m =~= init.push(fields(curd.push(t))));
            init.lemma_flatten_push(fields(curd));
            init.lemma_flatten_push(fields(curd.push(t)));
            match t {
                SpecToken::Word(w) => {
                    assert(init.flatten() + fields(curd).push(w) =~= (init.flatten() + fields(curd)).push(w));
                },
                _ => {},
            }
        }
    }
}

/// A successful parse keeps every word of the line that is not an operator
/// or the target of a redirection: the programs and arguments of all
/// commands, in order, are exactly the fields of the line. The line is
/// read as the tokens of its whitespace-separated words (`tokenize`), so
/// the operators are the words `|`, `<`, `>`, `>>`, `&&`, `||` and `;`.
/// Moreover command `m` is exactly the command that its own tokens (those
/// between separator `m - 1` and separator `m`) describe: its first field
/// is the program, the other fields are its arguments, a `<`, `>` or `>>`
/// among its tokens sets that stream to the file named after it, and
/// otherwise its input or output is a pipe exactly when a pipe comes before
/// or after it.
pub proof fn lemma_parse_keeps_fields(input: Seq<char>)
    ensures
        parse_input(ParserState::Command, input) matches Ok(gs) ==> {
            let toks = crate::lexer::tokenize(input);
            &&& command_words(flat_commands(gs)) == fields(toks)
            &&& flat_commands(gs).len() == segments(toks).len()
            &&& forall|m: int| 0 <= m < segments(toks).len() ==> #[trigger] flat_commands(gs)[m] == segment_command(
                segments(toks)[m],
                piped_before(toks, m),
                piped_after(toks, m),
            )
        },
{
    let toks = crate::lexer::tokenize(input);
    let c0 = initial_cfg(ParserState::Command);
    let e = Seq::<SpecToken>::empty();
    assert(segments(e) =~= seq![e]);
    assert(separators(e) =~= Seq::<SpecToken>::empty());
    let eg = Seq::<SpecGroup>::empty();
    assert(eg.map_values(|g: SpecGroup| g.commands) =~= Seq::<Seq<SpecCommand>>::empty());
    assert(flat_commands(eg) =~= Seq::<SpecCommand>::empty());
    assert(flat_commands(c0.groups) + c0.group.commands =~= Seq::<SpecCommand>::empty());
    lemma_empty_segment(false);
    assert(fields_inv(c0, e));
    lemma_run_fields(c0, e, toks);
    assert(e + toks =~= toks);
    if let Ok(c) = run(c0, toks) {
        if let Ok(gs) = finish(c) {
            let segs = segments(toks);
            let seps = separators(toks);
            let done = flat_commands(c.groups) + c.group.commands;
            assert(c.state == ParserState::Arg);
            let g = SpecGroup { commands: c.group.commands.push(c.command), ..c.group };
            assert(gs == c.groups.push(g));
            lemma_flat_push(c.groups, g);
            let flat = flat_commands(gs);
            assert(flat =~= done.push(c.command));
            assert forall|m: int| 0 <= m < segs.len() implies #[trigger] flat[m] == segment_command(
                segs[m],
                piped_before(toks, m),
                piped_after(toks, m),
            ) by {
                if m < done.len() {
                    assert(flat[m] == done[m]);
                } else {
                    assert(m == done.len());
                    if m > 0 {
                        assert(seps[m - 1] == seps.last());
                    }
                }
            }
            // the words
            lemma_fields_segments(toks);
            let a = flat.map_values(|x: SpecCommand| seq![x.program] + x.args);
            let b = segs.map_values(|s: Seq<SpecToken>| fields(s));
            assert forall|m: int| 0 <= m < segs.len() implies #[trigger] a[m] == b[m] by {
                let f = fields(segs[m]);
                if m < done.len() {
                    assert(flat[m] == done[m]);
                    assert(fields(segs[m]).len() > 0);
                } else {
                    assert(m == done.len());
                    assert(segs[m] == segs.last());
                }
                assert(seq![f[0]] + f.drop_first() =~= f);
            }
            assert(a =~= b);
        }
    }
}

} // verus!
