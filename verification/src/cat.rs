//! The `cat` utility: numbering lines and making tabs and line ends visible.

use vstd::prelude::*;
use crate::text::{chars_of, push_char};

verus! {

/// The options of `cat` and the files it prints.
pub struct CatCommand {
    /// `-n`: number every line.
    pub number: bool,
    /// `-b`: number the lines that are not blank.
    pub number_nonblank: bool,
    /// `-s`: squeeze runs of blank lines.
    pub squeeze_blank: bool,
    /// `-e`: show `$` at the end of each line.
    pub show_end: bool,
    /// `-T`: show tabs as `^I`.
    pub show_tab: bool,
    /// `-v`: show non-printing characters.
    pub show_nonprint: bool,
    /// `-A`: the same as `-veT`.
    pub show_all: bool,
    pub files: Vec<String>,
}

/// The decimal digit of `d`.
pub open spec fn digit_char(d: int) -> char {
    seq!['0', '1', '2', '3', '4', '5', '6', '7', '8', '9'][d]
}

/// The decimal representation of `n`, without leading zeros.
pub open spec fn decimal(n: nat) -> Seq<char>
    decreases n,
{
    if n < 10 {
        seq![digit_char(n as int)]
    } else {
        decimal(n / 10).push(digit_char((n % 10) as int))
    }
}

/// `s` right-aligned in a field of `w` characters, filled with spaces; a
/// longer `s` is kept whole.
pub open spec fn pad_left(s: Seq<char>, w: nat) -> Seq<char> {
    if s.len() < w {
        Seq::new((w - s.len()) as nat, |i: int| ' ') + s
    } else {
        s
    }
}

/// An ASCII control character other than tab and line end, which `-v`
/// shows in caret notation.
pub open spec fn is_nonprinting(c: char) -> bool {
    (c < ' ' && c != '\t' && c != '\n') || c == '\u{7f}'
}

/// The caret form of a non-printing character: `^` followed by the
/// character 64 places further (`^@` to `^_`), and `^?` for DEL.
pub open spec fn caret_of(c: char) -> char {
    if c == '\u{7f}' {
        '?'
    } else {
        ((c as u32) + 64) as char
    }
}

/// How one character of a line is shown: a tab as `^I` with `-T`, the line
/// end as `$` and the line end with `-e`, another ASCII control character
/// in caret notation with `-v`, anything else as itself.
pub open spec fn show_char(cmd: &CatCommand, c: char) -> Seq<char> {
    if c == '\t' && cmd.show_tab {
        seq!['^', 'I']
    } else if c == '\n' && cmd.show_end {
        seq!['$', '\n']
    } else if cmd.show_nonprint && is_nonprinting(c) {
        seq!['^', caret_of(c)]
    } else {
        seq![c]
    }
}

/// A line with its characters shown as the options ask.
pub open spec fn shown_line(cmd: &CatCommand, line: Seq<char>) -> Seq<char>
    decreases line.len(),
{
    if line.len() == 0 {
        Seq::empty()
    } else {
        shown_line(cmd, line.drop_last()) + show_char(cmd, line.last())
    }
}

/// The number put before a line: right-aligned in six columns and followed
/// by three spaces, for every line with `-n`, for non-blank lines with `-b`.
pub open spec fn line_prefix(cmd: &CatCommand, count: nat, is_blank: bool) -> Seq<char> {
    if cmd.number || (cmd.number_nonblank && !is_blank) {
        pad_left(decimal(count), 6) + seq![' ', ' ', ' ']
    } else {
        Seq::empty()
    }
}

/// What `cat` prints for one line.
pub open spec fn process_line_spec(cmd: &CatCommand, line: Seq<char>, count: nat, is_blank: bool) -> Seq<char> {
    line_prefix(cmd, count, is_blank) + shown_line(cmd, line)
}

/// Appends the decimal representation of `n`.
fn push_decimal(s: &mut String, n: usize)
    ensures
        final(s)@ == old(s)@ + decimal(n as nat),
    decreases n,
{
    if n >= 10 {
        push_decimal(s, n / 10);
    }
    let d = n % 10;
    let c = if d == 0 {
        '0'
    } else if d == 1 {
        '1'
    } else if d == 2 {
        '2'
    } else if d == 3 {
        '3'
    } else if d == 4 {
        '4'
    } else if d == 5 {
        '5'
    } else if d == 6 {
        '6'
    } else if d == 7 {
        '7'
    } else if d == 8 {
        '8'
    } else {
        '9'
    };
    assert(c == digit_char(d as int));
    push_char(s, c);
    if n >= 10 {
        assert(old(s)@ + decimal((n / 10) as nat) + seq![c] =~= old(s)@ + decimal(n as nat));
    } else {
        assert(old(s)@ + seq![c] =~= old(s)@ + decimal(n as nat));
    }
}

/// Appends the shown form of one character.
fn push_shown(cmd: &CatCommand, out: &mut String, c: char)
    ensures
        final(out)@ == old(out)@ + show_char(cmd, c),
{
    if c == '\t' && cmd.show_tab {
        push_char(out, '^');
        push_char(out, 'I');
    } else if c == '\n' && cmd.show_end {
        push_char(out, '$');
        push_char(out, '\n');
    } else if cmd.show_nonprint && ((c < ' ' && c != '\t' && c != '\n') || c == '\u{7f}') {
        let caret: char = if c == '\u{7f}' {
            '?'
        } else {
            ((c as u8) + 64) as char
        };
        assert(caret == caret_of(c));
        push_char(out, '^');
        push_char(out, caret);
    } else {
        push_char(out, c);
    }
    assert(final(out)@ =~= old(out)@ + show_char(cmd, c));
}

impl CatCommand {
    /// One line as `cat` prints it: the line number where asked, then the
    /// line with tabs shown as `^I` (`-T`), line ends as `$` (`-e`) and other
    /// ASCII control characters in caret notation (`-v`).
    pub fn process_line(&self, line: &str, line_count: usize, is_blank: bool) -> (r: String)
        ensures
            r@ == process_line_spec(self, line@, line_count as nat, is_blank),
    {
        let mut result = String::new();
        if self.number || (self.number_nonblank && !is_blank) {
            let mut digits = String::new();
            push_decimal(&mut digits, line_count);
            assert(digits@ =~= decimal(line_count as nat));
            let len = digits.as_str().unicode_len();
            let mut k: usize = len;
            while k < 6
                invariant
                    len <= k <= 6 || (len > 6 && k == len),
                    len == digits@.len(),
                    result@ == Seq::new((k - len) as nat, |i: int| ' '),
                decreases 6 - k,
            {
                push_char(&mut result, ' ');
                assert(result@ =~= Seq::new((k + 1 - len) as nat, |i: int| ' '));
                k = k + 1;
            }
            assert(result@ + digits@ =~= pad_left(decimal(line_count as nat), 6));
            result.append(digits.as_str());
            result.append("   ");
            proof {
                reveal_strlit("   ");
                assert("   "@ =~= seq![' ', ' ', ' ']);
            }
        }
        assert(result@ == line_prefix(self, line_count as nat, is_blank));
        let chars = chars_of(line);
        let ghost before = result@;
        let mut i: usize = 0;
        assert(chars@.take(0) =~= Seq::<char>::empty());
        assert(before + shown_line(self, chars@.take(0)) =~= before);
        while i < chars.len()
            invariant
                i <= chars@.len(),
                chars@ == line@,
                result@ == before + shown_line(self, chars@.take(i as int)),
            decreases chars.len() - i,
        {
            assert(chars@.take(i + 1).drop_last() =~= chars@.take(i as int));
            assert(chars@.take(i + 1).last() == chars@[i as int]);
            push_shown(self, &mut result, chars[i]);
            assert(result@ =~= before + shown_line(self, chars@.take(i + 1)));
            i = i + 1;
        }
        assert(chars@.take(chars@.len() as int) =~= chars@);
        result
    }

    /// Makes `-A` stand for `-v`, `-e` and `-T` together.
    pub fn normalize_opt(&mut self)
        ensures
            final(self).show_nonprint == (old(self).show_nonprint || old(self).show_all),
            final(self).show_tab == (old(self).show_tab || old(self).show_all),
            final(self).show_end == (old(self).show_end || old(self).show_all),
            final(self).number == old(self).number,
            final(self).number_nonblank == old(self).number_nonblank,
            final(self).squeeze_blank == old(self).squeeze_blank,
            final(self).show_all == old(self).show_all,
            final(self).files@ == old(self).files@,
    {
        if self.show_all {
            self.show_nonprint = true;
            self.show_tab = true;
            self.show_end = true;
        }
    }
}


/// The lines of a text, each with its line end: every piece ends in `\n`
/// except possibly the last; an empty text has no lines.
pub open spec fn split_lines(s: Seq<char>) -> Seq<Seq<char>>
    decreases s.len(),
{
    if s.len() == 0 {
        Seq::empty()
    } else {
        let prev = split_lines(s.drop_last());
        if s.len() >= 2 && s[s.len() - 2] != '\n' {
            prev.update(prev.len() - 1, prev.last().push(s.last()))
        } else {
            prev.push(seq![s.last()])
        }
    }
}

/// A blank line holds nothing but line ends.
pub open spec fn is_blank_line(l: Seq<char>) -> bool {
    forall|i: int| 0 <= i < l.len() ==> l[i] == '\n'
}

/// Whether a line takes a number: every line does, unless only non-blank
/// lines are numbered (`-b`).
pub open spec fn counts(number_nonblank: bool, l: Seq<char>) -> bool {
    !number_nonblank || !is_blank_line(l)
}

/// How many of the lines take a number.
pub open spec fn count_numbered(number_nonblank: bool, lines: Seq<Seq<char>>) -> nat
    decreases lines.len(),
{
    if lines.len() == 0 {
        0
    } else {
        count_numbered(number_nonblank, lines.drop_last()) + if counts(number_nonblank, lines.last()) {
            1nat
        } else {
            0nat
        }
    }
}

/// Line `t` is dropped by `-s`: it is blank and so is the line before it,
/// so that a run of blank lines is printed as one.
pub open spec fn squeezed(squeeze: bool, lines: Seq<Seq<char>>, t: int) -> bool {
    squeeze && t > 0 && is_blank_line(lines[t]) && is_blank_line(lines[t - 1])
}

/// The lines that are printed: all of them, less those that `-s` drops.
pub open spec fn kept_lines(squeeze: bool, lines: Seq<Seq<char>>) -> Seq<Seq<char>>
    decreases lines.len(),
{
    if lines.len() == 0 {
        Seq::empty()
    } else if squeezed(squeeze, lines, lines.len() - 1) {
        kept_lines(squeeze, lines.drop_last())
    } else {
        kept_lines(squeeze, lines.drop_last()).push(lines.last())
    }
}

/// What `cat` prints for a whole text, line by line: the printed lines are
/// those that `-s` keeps, and printed line `t` has the number one more than
/// the count of numbered lines printed before it.
pub open spec fn process_content_spec(cmd: &CatCommand, s: Seq<char>) -> Seq<Seq<char>> {
    let lines = kept_lines(cmd.squeeze_blank, split_lines(s));
    Seq::new(
        lines.len(),
        |t: int|
            process_line_spec(
                cmd,
                lines[t],
                1 + count_numbered(cmd.number_nonblank, lines.take(t)),
                is_blank_line(lines[t]),
            ),
    )
}

/// The header printed before a file when several are printed: its name in
/// single quotes.
pub open spec fn header_spec(file: Seq<char>, n_files: nat) -> Seq<char> {
    if n_files > 1 {
        seq!['\''] + file + seq!['\'']
    } else {
        Seq::empty()
    }
}

impl CatCommand {
    /// The printed lines of a whole text (the content of one file): each
    /// line processed with the options, a run of blank lines printed once
    /// with `-s`, and the line numbers counting the printed lines.
    pub fn process_content(&self, content: &str) -> (r: Vec<String>)
        ensures
            r.deep_view() == process_content_spec(self, content@),
    {
        let cs = chars_of(content);
        let n = cs.len();
        let mut out: Vec<String> = Vec::new();
        let mut cur = String::new();
        let mut cur_chars: Vec<char> = Vec::new();
        let mut cur_blank = true;
        let mut prev_blank = false;
        let mut numbered: usize = 0;
        let ghost mut done: Seq<Seq<char>> = Seq::empty();
        let ghost sq = self.squeeze_blank;
        let mut i: usize = 0;
        assert(cs@.take(0) =~= Seq::<char>::empty());
        while i < n
            invariant
                n == cs@.len(),
                cs@ == content@,
                sq == self.squeeze_blank,
                i <= n,
                cur@ == cur_chars@,
                cur_blank == is_blank_line(cur@),
                prev_blank == (done.len() > 0 && is_blank_line(done.last())),
                cur@.len() > 0 <==> (i > 0 && cs@[i - 1] != '\n'),
                split_lines(cs@.take(i as int)) == (if cur@.len() > 0 {
                    done.push(cur@)
                } else {
                    done
                }),
                done.len() + (if cur@.len() > 0 {
                    1int
                } else {
                    0int
                }) <= i,
                kept_lines(sq, done).len() <= done.len(),
                numbered == count_numbered(self.number_nonblank, kept_lines(sq, done)),
                numbered <= kept_lines(sq, done).len(),
                out@.len() == kept_lines(sq, done).len(),
                forall|t: int| 0 <= t < kept_lines(sq, done).len() ==> #[trigger] out@[t]@ == process_line_spec(
                    self,
                    kept_lines(sq, done)[t],
                    1 + count_numbered(self.number_nonblank, kept_lines(sq, done).take(t)),
                    is_blank_line(kept_lines(sq, done)[t]),
                ),
            decreases n - i,
        {
            let c = cs[i];
            let ghost pre = cs@.take(i as int);
            let ghost pre1 = cs@.take(i + 1);
            assert(pre1.drop_last() == pre);
            assert(pre1.last() == c);
            let ghost prev = split_lines(pre);
            let ghost old_cur = cur@;
            if cur_chars.len() > 0 {
                assert(pre1[i - 1] == cs@[i - 1]);
                assert(prev == done.push(old_cur));
                assert(split_lines(pre1) == prev.update(prev.len() - 1, prev.last().push(c)));
            } else if i > 0 {
                assert(pre1[i - 1] == cs@[i - 1]);
                assert(split_lines(pre1) == prev.push(seq![c]));
                assert(old_cur.push(c) =~= seq![c]);
            } else {
                assert(split_lines(pre1) == prev.push(seq![c]));
                assert(old_cur.push(c) =~= seq![c]);
            }
            let ghost old_blank = cur_blank;
            push_char(&mut cur, c);
            cur_chars.push(c);
            cur_blank = cur_blank && c == '\n';
            assert(is_blank_line(cur@) == cur_blank) by {
                assert(cur@ == old_cur.push(c));
                if old_blank && c == '\n' {
                    assert forall|k: int| 0 <= k < cur@.len() implies cur@[k] == '\n' by {
                        if k < old_cur.len() {
                            assert(cur@[k] == old_cur[k]);
                        }
                    }
                } else if !old_blank {
                    let k = choose|k: int| 0 <= k < old_cur.len() && old_cur[k] != '\n';
                    assert(cur@[k] == old_cur[k]);
                } else {
                    assert(cur@[old_cur.len() as int] == c);
                }
            }
            assert(split_lines(pre1) =~= done.push(cur@));
            if c == '\n' {
                self.finish_line(&mut out, &mut numbered, &cur, cur_blank, prev_blank, Ghost(done));
                proof {
                    done = done.push(cur@);
                }
                prev_blank = cur_blank;
                cur = String::new();
                cur_chars = Vec::new();
                cur_blank = true;
                assert(split_lines(pre1) == done);
            }
            i = i + 1;
        }
        assert(cs@.take(n as int) =~= cs@);
        if cur_chars.len() > 0 {
            self.finish_line(&mut out, &mut numbered, &cur, cur_blank, prev_blank, Ghost(done));
            proof {
                done = done.push(cur@);
            }
        }
        assert(split_lines(content@) == done);
        let ghost kept = kept_lines(sq, done);
        assert(out.deep_view() =~= process_content_spec(self, content@)) by {
            assert forall|t: int| 0 <= t < kept.len() implies #[trigger] out.deep_view()[t] == process_content_spec(self, content@)[t] by {
                assert(out.deep_view()[t] == out@[t]@);
            }
        }
        out
    }

    /// Prints a finished line, unless `-s` drops it, and counts its number.
    fn finish_line(
        &self,
        out: &mut Vec<String>,
        numbered: &mut usize,
        line: &String,
        blank: bool,
        prev_blank: bool,
        Ghost(done): Ghost<Seq<Seq<char>>>,
    )
        requires
            blank == is_blank_line(line@),
            prev_blank == (done.len() > 0 && is_blank_line(done.last())),
            kept_lines(self.squeeze_blank, done).len() <= done.len(),
            done.len() < usize::MAX,
            *old(numbered) == count_numbered(self.number_nonblank, kept_lines(self.squeeze_blank, done)),
            *old(numbered) <= kept_lines(self.squeeze_blank, done).len(),
            old(out)@.len() == kept_lines(self.squeeze_blank, done).len(),
            forall|t: int| 0 <= t < kept_lines(self.squeeze_blank, done).len() ==> #[trigger] old(out)@[t]@ == process_line_spec(
                self,
                kept_lines(self.squeeze_blank, done)[t],
                1 + count_numbered(self.number_nonblank, kept_lines(self.squeeze_blank, done).take(t)),
                is_blank_line(kept_lines(self.squeeze_blank, done)[t]),
            ),
        ensures
            ({
                let k2 = kept_lines(self.squeeze_blank, done.push(line@));
                &&& k2.len() <= done.len() + 1
                &&& *final(numbered) == count_numbered(self.number_nonblank, k2)
                &&& *final(numbered) <= k2.len()
                &&& final(out)@.len() == k2.len()
                &&& forall|t: int| 0 <= t < k2.len() ==> #[trigger] final(out)@[t]@ == process_line_spec(
                    self,
                    k2[t],
                    1 + count_numbered(self.number_nonblank, k2.take(t)),
                    is_blank_line(k2[t]),
                )
            }),
    {
        let ghost d2 = done.push(line@);
        let ghost kept = kept_lines(self.squeeze_blank, done);
        assert(d2.drop_last() =~= done);
        assert(d2.last() == line@);
        proof {
            if done.len() > 0 {
                assert(d2[d2.len() - 2] == done.last());
            }
        }
        if self.squeeze_blank && blank && prev_blank {
            assert(kept_lines(self.squeeze_blank, d2) == kept);
            return;
        }
        assert(kept_lines(self.squeeze_blank, d2) == kept.push(line@));
        let printed = self.process_line(line.as_str(), *numbered + 1, blank);
        let ghost old_out = out@;
        out.push(printed);
        let ghost k2 = kept.push(line@);
        assert(k2.take(kept.len() as int) =~= kept);
        assert(k2.drop_last() =~= kept);
        assert forall|t: int| 0 <= t < k2.len() implies #[trigger] out@[t]@ == process_line_spec(
            self,
            k2[t],
            1 + count_numbered(self.number_nonblank, k2.take(t)),
            is_blank_line(k2[t]),
        ) by {
            if t < kept.len() {
                assert(out@[t] == old_out[t]);
                assert(k2[t] == kept[t]);
                assert(k2.take(t) =~= kept.take(t));
            }
        }
        if !self.number_nonblank || !blank {
            *numbered = *numbered + 1;
        }
    }
}

/// The header printed before a file among `n_files` files: its name in
/// single quotes when there are several files, nothing otherwise.
pub fn file_header(file: &str, n_files: usize) -> (r: String)
    ensures
        r@ == header_spec(file@, n_files as nat),
{
    let mut r = String::new();
    if n_files > 1 {
        push_char(&mut r, '\'');
        r.append(file);
        push_char(&mut r, '\'');
    }
    r
}


/// The number that a sequence of decimal digits stands for, read with the
/// most significant digit first.
pub open spec fn digits_value(s: Seq<char>) -> int
    decreases s.len(),
{
    if s.len() == 0 {
        0
    } else {
        digits_value(s.drop_last()) * 10 + ((s.last() as int) - ('0' as int))
    }
}

/// The printed line number is the number in decimal: every character is a
/// digit from `0` to `9`, there is no leading zero, and the digits read
/// back as base-10 give the number.
pub proof fn lemma_decimal_reads_back(n: nat)
    ensures
        decimal(n).len() > 0,
        forall|i: int| 0 <= i < decimal(n).len() ==> '0' <= #[trigger] decimal(n)[i] <= '9',
        n > 0 ==> decimal(n)[0] != '0',
        digits_value(decimal(n)) == n,
    decreases n,
{
    if n < 10 {
        assert(decimal(n) == seq![digit_char(n as int)]);
        assert(seq![digit_char(n as int)].drop_last() =~= Seq::<char>::empty());
        assert(digit_char(n as int) as int == '0' as int + n) by {
            if n == 0 {} else if n == 1 {} else if n == 2 {} else if n == 3 {} else if n == 4 {}
            else if n == 5 {} else if n == 6 {} else if n == 7 {} else if n == 8 {} else {}
        }
        assert(digits_value(Seq::<char>::empty()) == 0);
        assert(decimal(n).last() == digit_char(n as int));
        assert(digits_value(decimal(n)) == digits_value(Seq::<char>::empty()) * 10 + ((digit_char(n as int) as int) - ('0' as int)));
    } else {
        let q = n / 10;
        let d = (n % 10) as int;
        lemma_decimal_reads_back(q);
        let prev = decimal(q);
        assert(decimal(n) == prev.push(digit_char(d)));
        assert(prev.push(digit_char(d)).drop_last() =~= prev);
        assert(digit_char(d) as int == '0' as int + d) by {
            if d == 0 {} else if d == 1 {} else if d == 2 {} else if d == 3 {} else if d == 4 {}
            else if d == 5 {} else if d == 6 {} else if d == 7 {} else if d == 8 {} else {}
        }
        assert(q * 10 + d == n);
        assert(decimal(n).last() == digit_char(d));
        assert(digits_value(decimal(n)) == digits_value(prev) * 10 + ((digit_char(d) as int) - ('0' as int)));
        assert forall|i: int| 0 <= i < decimal(n).len() implies '0' <= #[trigger] decimal(n)[i] <= '9' by {
            if i < prev.len() {
                assert(decimal(n)[i] == prev[i]);
            }
        }
        assert(decimal(n)[0] == prev[0]);
    }
}

/// A non-empty text has at least one line.
proof fn lemma_split_lines_nonempty(s: Seq<char>)
    requires
        s.len() > 0,
    ensures
        split_lines(s).len() > 0,
    decreases s.len(),
{
    if s.len() >= 2 && s[s.len() - 2] != '\n' {
        lemma_split_lines_nonempty(s.drop_last());
    }
}

/// Lines end exactly at `\n`: every line is non-empty, holds no `\n`
/// before its last character, and ends in `\n` unless it is the last line;
/// the last line ends with the last character of the text.
pub proof fn lemma_split_lines_end_at_newlines(s: Seq<char>)
    ensures
        forall|t: int| 0 <= t < split_lines(s).len() ==> (#[trigger] split_lines(s)[t]).len() > 0,
        forall|t: int, i: int| 0 <= t < split_lines(s).len() && 0 <= i < split_lines(s)[t].len() - 1 ==> #[trigger] split_lines(s)[t][i] != '\n',
        forall|t: int| 0 <= t < split_lines(s).len() - 1 ==> (#[trigger] split_lines(s)[t]).last() == '\n',
        s.len() > 0 ==> split_lines(s).last().last() == s.last(),
    decreases s.len(),
{
    if s.len() > 0 {
        let d = s.drop_last();
        let prev = split_lines(d);
        let cur = split_lines(s);
        let c = s.last();
        lemma_split_lines_end_at_newlines(d);
        if s.len() >= 2 && s[s.len() - 2] != '\n' {
            lemma_split_lines_nonempty(d);
            let l = prev.last();
            assert(cur == prev.update(prev.len() - 1, l.push(c)));
            assert(d.last() == s[s.len() - 2]);
            assert forall|t: int, i: int| 0 <= t < cur.len() && 0 <= i < cur[t].len() - 1 implies #[trigger] cur[t][i] != '\n' by {
                if t < cur.len() - 1 {
                    assert(cur[t] == prev[t]);
                } else {
                    assert(cur[t] == l.push(c));
                    if i < l.len() - 1 {
                        assert(prev[prev.len() - 1][i] != '\n');
                    } else {
                        assert(l.last() == d.last());
                    }
                }
            }
            assert forall|t: int| 0 <= t < cur.len() - 1 implies (#[trigger] cur[t]).last() == '\n' by {
                assert(cur[t] == prev[t]);
            }
            assert forall|t: int| 0 <= t < cur.len() implies (#[trigger] cur[t]).len() > 0 by {
                if t < cur.len() - 1 {
                    assert(cur[t] == prev[t]);
                }
            }
        } else {
            assert(cur == prev.push(seq![c]));
            assert forall|t: int, i: int| 0 <= t < cur.len() && 0 <= i < cur[t].len() - 1 implies #[trigger] cur[t][i] != '\n' by {
                if t < cur.len() - 1 {
                    assert(cur[t] == prev[t]);
                }
            }
            assert forall|t: int| 0 <= t < cur.len() - 1 implies (#[trigger] cur[t]).last() == '\n' by {
                assert(cur[t] == prev[t]);
                if t == cur.len() - 2 {
                    assert(d.last() == s[s.len() - 2]);
                }
            }
            assert forall|t: int| 0 <= t < cur.len() implies (#[trigger] cur[t]).len() > 0 by {
                if t < cur.len() - 1 {
                    assert(cur[t] == prev[t]);
                }
            }
        }
    }
}

/// The lines of a text, put back together, are the text.
pub proof fn lemma_split_lines_flatten(s: Seq<char>)
    ensures
        split_lines(s).flatten() == s,
    decreases s.len(),
{
    if s.len() == 0 {
        assert(split_lines(s).flatten() =~= s);
    } else {
        let d = s.drop_last();
        lemma_split_lines_flatten(d);
        let prev = split_lines(d);
        let c = s.last();
        if s.len() >= 2 && s[s.len() - 2] != '\n' {
            lemma_split_lines_nonempty(d);
            let init = prev.drop_last();
            assert(prev =~= init.push(prev.last()));
            init.lemma_flatten_push(prev.last());
            let cur = split_lines(s);
            assert(cur =~= init.push(prev.last().push(c)));
            init.lemma_flatten_push(prev.last().push(c));
            assert(s =~= d.push(c));
            assert(prev.flatten() == init.flatten() + prev.last());
            assert(init.flatten() + prev.last().push(c) =~= (init.flatten() + prev.last()).push(c));
            assert(cur.flatten() =~= s);
        } else {
            prev.lemma_flatten_push(seq![c]);
            assert(s =~= d.push(c));
            assert(split_lines(s).flatten() =~= s);
        }
    }
}

/// With every line numbered, all lines count.
proof fn lemma_count_all(lines: Seq<Seq<char>>)
    ensures
        count_numbered(false, lines) == lines.len(),
    decreases lines.len(),
{
    if lines.len() > 0 {
        lemma_count_all(lines.drop_last());
    }
}

/// Without `-s`, every line is printed.
proof fn lemma_kept_all(lines: Seq<Seq<char>>)
    ensures
        kept_lines(false, lines) == lines,
    decreases lines.len(),
{
    if lines.len() > 0 {
        lemma_kept_all(lines.drop_last());
        assert(lines.drop_last().push(lines.last()) =~= lines);
    }
}

/// Without options that show characters, a line is shown as it is.
proof fn lemma_shown_plain(cmd: &CatCommand, line: Seq<char>)
    requires
        !cmd.show_tab,
        !cmd.show_end,
        !cmd.show_nonprint,
    ensures
        shown_line(cmd, line) == line,
    decreases line.len(),
{
    if line.len() > 0 {
        lemma_shown_plain(cmd, line.drop_last());
        assert(line.drop_last() + seq![line.last()] =~= line);
    }
}

/// `cat` without options prints the text as it is: its printed lines, put
/// together, are the content of the file.
pub proof fn lemma_plain_cat_is_identity(cmd: &CatCommand, s: Seq<char>)
    requires
        !cmd.number,
        !cmd.number_nonblank,
        !cmd.squeeze_blank,
        !cmd.show_tab,
        !cmd.show_end,
        !cmd.show_nonprint,
    ensures
        process_content_spec(cmd, s).flatten() == s,
{
    lemma_split_lines_flatten(s);
    lemma_kept_all(split_lines(s));
    assert forall|t: int| 0 <= t < split_lines(s).len() implies #[trigger] process_content_spec(cmd, s)[t] == split_lines(s)[t] by {
        lemma_shown_plain(cmd, split_lines(s)[t]);
    }
    assert(process_content_spec(cmd, s) =~= split_lines(s));
}

/// With `-n` and without `-s`, line `t` (from 0) carries the number `t + 1`,
/// right-aligned in six columns and followed by three spaces.
pub proof fn lemma_numbered_lines(cmd: &CatCommand, s: Seq<char>, t: int)
    requires
        cmd.number,
        !cmd.number_nonblank,
        !cmd.squeeze_blank,
        0 <= t < split_lines(s).len(),
    ensures
        process_content_spec(cmd, s)[t] == pad_left(decimal((t + 1) as nat), 6) + seq![' ', ' ', ' '] + shown_line(cmd, split_lines(s)[t]),
{
    lemma_kept_all(split_lines(s));
    lemma_count_all(split_lines(s).take(t));
}

/// The last printed line is blank exactly when the last line is.
proof fn lemma_kept_last(lines: Seq<Seq<char>>)
    requires
        lines.len() > 0,
    ensures
        kept_lines(true, lines).len() > 0,
        is_blank_line(kept_lines(true, lines).last()) == is_blank_line(lines.last()),
    decreases lines.len(),
{
    if squeezed(true, lines, lines.len() - 1) {
        assert(lines.drop_last().last() == lines[lines.len() - 2]);
        lemma_kept_last(lines.drop_last());
    }
}

/// With `-s`, no two printed lines in a row are blank.
pub proof fn lemma_squeezed_no_blank_run(lines: Seq<Seq<char>>)
    ensures
        forall|t: int| 0 < t < kept_lines(true, lines).len() ==> !(is_blank_line(#[trigger] kept_lines(true, lines)[t]) && is_blank_line(kept_lines(true, lines)[t - 1])),
    decreases lines.len(),
{
    if lines.len() > 0 {
        let d = lines.drop_last();
        lemma_squeezed_no_blank_run(d);
        let kd = kept_lines(true, d);
        let k = kept_lines(true, lines);
        if !squeezed(true, lines, lines.len() - 1) {
            assert(k == kd.push(lines.last()));
            if d.len() > 0 {
                lemma_kept_last(d);
                assert(d.last() == lines[lines.len() - 2]);
            }
            assert forall|t: int| 0 < t < k.len() implies !(is_blank_line(#[trigger] k[t]) && is_blank_line(k[t - 1])) by {
                if t < kd.len() {
                    assert(k[t] == kd[t]);
                    assert(k[t - 1] == kd[t - 1]);
                } else {
                    assert(k[t - 1] == kd.last());
                }
            }
        }
    }
}

} // verus!
