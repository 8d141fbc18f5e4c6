//! Splitting a command line into whitespace-separated words and classifying
//! each word as an operator or a plain word.

use vstd::prelude::*;
use crate::text::{chars_of, push_char};

verus! {

/// The lexer; it has no state of its own.
pub struct ShellLexer;

/// A lexical unit of a command line.
#[derive(Debug)]
pub enum Token {
    Word(String),
    /// `<`
    FileIN,
    /// `>`
    FileOUT,
    /// `>>`
    FileAppend,
    /// `|`
    Pipe,
    /// `&&`
    And,
    /// `||`
    Or,
    /// `;`
    Sequence,
}

/// The mathematical value of a [`Token`]: a word is its sequence of characters.
pub enum SpecToken {
    Word(Seq<char>),
    FileIN,
    FileOUT,
    FileAppend,
    Pipe,
    And,
    Or,
    Sequence,
}

impl View for Token {
    type V = SpecToken;

    open spec fn view(&self) -> SpecToken {
        match self {
            Token::Word(w) => SpecToken::Word(w@),
            Token::FileIN => SpecToken::FileIN,
            Token::FileOUT => SpecToken::FileOUT,
            Token::FileAppend => SpecToken::FileAppend,
            Token::Pipe => SpecToken::Pipe,
            Token::And => SpecToken::And,
            Token::Or => SpecToken::Or,
            Token::Sequence => SpecToken::Sequence,
        }
    }
}

/// The values of a sequence of tokens.
pub open spec fn tokens_view(v: Seq<Token>) -> Seq<SpecToken> {
    v.map_values(|t: Token| t@)
}

/// Unicode `White_Space`, the set that `char::is_whitespace` documents:
/// U+0009..U+000D, U+0020, U+0085, U+00A0, U+1680, U+2000..U+200A, U+2028,
/// U+2029, U+202F, U+205F and U+3000.
pub open spec fn is_whitespace(c: char) -> bool {
    ||| ('\u{9}' <= c && c <= '\u{d}')
    ||| c == ' '
    ||| c == '\u{85}'
    ||| c == '\u{a0}'
    ||| c == '\u{1680}'
    ||| ('\u{2000}' <= c && c <= '\u{200a}')
    ||| c == '\u{2028}'
    ||| c == '\u{2029}'
    ||| c == '\u{202f}'
    ||| c == '\u{205f}'
    ||| c == '\u{3000}'
}

/// Whether `c` is a Unicode whitespace character.
pub fn is_whitespace_char(c: char) -> (b: bool)
    ensures
        b == is_whitespace(c),
{
    ('\u{9}' <= c && c <= '\u{d}') || c == ' ' || c == '\u{85}' || c == '\u{a0}' || c == '\u{1680}'
        || ('\u{2000}' <= c && c <= '\u{200a}') || c == '\u{2028}' || c == '\u{2029}' || c
        == '\u{202f}' || c == '\u{205f}' || c == '\u{3000}'
}

/// The maximal runs of non-whitespace characters of `s`, in order.
/// Defined by the last character: whitespace ends nothing new, a
/// non-whitespace character after a non-whitespace one extends the last
/// word, and any other non-whitespace character starts a new word.
pub open spec fn split_words(s: Seq<char>) -> Seq<Seq<char>>
    decreases s.len(),
{
    if s.len() == 0 {
        Seq::empty()
    } else {
        let prev = split_words(s.drop_last());
        let c = s.last();
        if is_whitespace(c) {
            prev
        } else if s.len() >= 2 && !is_whitespace(s[s.len() - 2]) {
            prev.update(prev.len() - 1, prev.last().push(c))
        } else {
            prev.push(seq![c])
        }
    }
}

/// The token that a word stands for.
pub open spec fn classify(w: Seq<char>) -> SpecToken {
    if w == seq!['>'] {
        SpecToken::FileOUT
    } else if w == seq!['<'] {
        SpecToken::FileIN
    } else if w == seq!['>', '>'] {
        SpecToken::FileAppend
    } else if w == seq!['|'] {
        SpecToken::Pipe
    } else if w == seq!['&', '&'] {
        SpecToken::And
    } else if w == seq!['|', '|'] {
        SpecToken::Or
    } else if w == seq![';'] {
        SpecToken::Sequence
    } else {
        SpecToken::Word(w)
    }
}

/// The tokens of a sequence of words.
pub open spec fn classify_all(words: Seq<Seq<char>>) -> Seq<SpecToken> {
    words.map_values(|w: Seq<char>| classify(w))
}

/// The tokens of a command line.
pub open spec fn tokenize(s: Seq<char>) -> Seq<SpecToken> {
    classify_all(split_words(s))
}

/// Whether a string equals a literal.
fn string_is(w: &String, lit: &str) -> (b: bool)
    ensures
        b == (w@ == lit@),
{
    let l = lit.to_owned();
    w.eq(&l)
}

/// The token of one word.
fn classify_word(w: String) -> (t: Token)
    ensures
        t@ == classify(w@),
{
    proof {
        reveal_strlit(">");
        reveal_strlit("<");
        reveal_strlit(">>");
        reveal_strlit("|");
        reveal_strlit("&&");
        reveal_strlit("||");
        reveal_strlit(";");
        assert(">"@ =~= seq!['>']);
        assert("<"@ =~= seq!['<']);
        assert(">>"@ =~= seq!['>', '>']);
        assert("|"@ =~= seq!['|']);
        assert("&&"@ =~= seq!['&', '&']);
        assert("||"@ =~= seq!['|', '|']);
        assert(";"@ =~= seq![';']);
    }
    if string_is(&w, ">") {
        Token::FileOUT
    } else if string_is(&w, "<") {
        Token::FileIN
    } else if string_is(&w, ">>") {
        Token::FileAppend
    } else if string_is(&w, "|") {
        Token::Pipe
    } else if string_is(&w, "&&") {
        Token::And
    } else if string_is(&w, "||") {
        Token::Or
    } else if string_is(&w, ";") {
        Token::Sequence
    } else {
        Token::Word(w)
    }
}

impl ShellLexer {
    /// Splits `input` at whitespace and classifies each word.
    pub fn tokenize_input(input: &str) -> (res: Vec<Token>)
        ensures
            tokens_view(res@) == tokenize(input@),
    {
        let chars = chars_of(input);
        let n = chars.len();
        let mut res: Vec<Token> = Vec::new();
        let mut cur = String::new();
        let mut in_word = false;
        let ghost mut words: Seq<Seq<char>> = Seq::empty();
        let mut i: usize = 0;
        while i < n
            invariant
                n == chars@.len(),
                chars@ == input@,
                i <= n,
                in_word == (cur@.len() > 0),
                cur@.len() > 0 <==> (i > 0 && !is_whitespace(chars@[i - 1])),
                split_words(chars@.take(i as int)) == (if cur@.len() > 0 {
                    words.push(cur@)
                } else {
                    words
                }),
                tokens_view(res@) == classify_all(words),
            decreases n - i,
        {
            let c = chars[i];
            let ghost pre = chars@.take(i as int);
            let ghost pre1 = chars@.take(i + 1);
            assert(pre1.drop_last() == pre);
            assert(pre1.last() == c);
            let ghost prev = split_words(pre);
            if is_whitespace_char(c) {
                assert(split_words(pre1) == prev);
                if in_word {
                    let mut w = String::new();
                    std::mem::swap(&mut w, &mut cur);
                    let ghost wv = w@;
                    let t = classify_word(w);
                    let ghost old_res = res@;
                    let ghost old_words = words;
                    assert(tokens_view(old_res).len() == old_res.len());
                    assert(classify_all(old_words).len() == old_words.len());
                    proof {
                        words = words.push(wv);
                    }
                    res.push(t);
                    assert forall|k: int| 0 <= k < res@.len() implies #[trigger] tokens_view(res@)[k] == classify_all(words)[k] by {
                        if k < old_res.len() {
                            assert(res@[k] == old_res[k]);
                            assert(tokens_view(old_res)[k] == classify_all(old_words)[k]);
                            assert(words[k] == old_words[k]);
                        } else {
                            assert(k == old_res.len());
                            assert(res@[k]@ == classify(wv));
                            assert(words[k] == wv);
                            assert(old_words.len() == old_res.len());
                        }
                    }
                    in_word = false;
                    assert(tokens_view(res@) =~= classify_all(words));
                }
            } else {
                let ghost old_cur = cur@;
                if in_word {
                    assert(prev == words.push(old_cur));
                    assert(pre1[i - 1] == chars@[i - 1]);
                    assert(split_words(pre1) == prev.update(prev.len() - 1, prev.last().push(c)));
                } else if i > 0 {
                    assert(pre1[i - 1] == chars@[i - 1]);
                    assert(split_words(pre1) == prev.push(seq![c]));
                    assert(old_cur.push(c) =~= seq![c]);
                } else {
                    assert(split_words(pre1) == prev.push(seq![c]));
                    assert(old_cur.push(c) =~= seq![c]);
                }
                push_char(&mut cur, c);
                in_word = true;
                assert(split_words(pre1) =~= words.push(cur@));
            }
            i = i + 1;
        }
        assert(chars@.take(n as int) == chars@);
        if in_word {
            let ghost wv = cur@;
            let t = classify_word(cur);
            let ghost old_res = res@;
            let ghost old_words = words;
            assert(tokens_view(old_res).len() == old_res.len());
            assert(classify_all(old_words).len() == old_words.len());
            proof {
                words = words.push(wv);
            }
            res.push(t);
            assert forall|k: int| 0 <= k < res@.len() implies #[trigger] tokens_view(res@)[k] == classify_all(words)[k] by {
                if k < old_res.len() {
                    assert(tokens_view(old_res)[k] == classify_all(old_words)[k]);
                }
            }
            assert(tokens_view(res@) =~= classify_all(words));
        }
        res
    }
}


/// Every word of a split is non-empty and free of whitespace.
pub proof fn lemma_split_words_shape(s: Seq<char>)
    ensures
        forall|k: int| 0 <= k < split_words(s).len() ==> (#[trigger] split_words(s)[k]).len() > 0,
        forall|k: int, m: int| 0 <= k < split_words(s).len() && 0 <= m < split_words(s)[k].len()
            ==> !is_whitespace(#[trigger] split_words(s)[k][m]),
    decreases s.len(),
{
    if s.len() > 0 {
        lemma_split_words_shape(s.drop_last());
        let prev = split_words(s.drop_last());
        let c = s.last();
        if !is_whitespace(c) && s.len() >= 2 && !is_whitespace(s[s.len() - 2]) {
            // the last word is extended, so there is one
            lemma_split_words_last(s.drop_last());
            assert(prev.len() > 0);
            let cur = split_words(s);
            assert forall|k: int, m: int| 0 <= k < cur.len() && 0 <= m < cur[k].len() implies !is_whitespace(#[trigger] cur[k][m]) by {
                if k < prev.len() - 1 {
                    assert(cur[k] == prev[k]);
                } else if m < prev[k].len() {
                    assert(cur[k][m] == prev[k][m]);
                }
            }
        }
    }
}

/// A sequence that ends in a non-whitespace character has at least one word.
pub proof fn lemma_split_words_last(s: Seq<char>)
    requires
        s.len() > 0,
        !is_whitespace(s.last()),
    ensures
        split_words(s).len() > 0,
    decreases s.len(),
{
    if s.len() >= 2 && !is_whitespace(s[s.len() - 2]) {
        assert(s.drop_last().last() == s[s.len() - 2]);
        lemma_split_words_last(s.drop_last());
    }
}

/// Every word token of a command line is non-empty.
pub proof fn lemma_tokenize_words_nonempty(s: Seq<char>)
    ensures
        forall|k: int| 0 <= k < tokenize(s).len() ==> (#[trigger] tokenize(s)[k] matches SpecToken::Word(w) ==> w.len() > 0),
{
    lemma_split_words_shape(s);
    assert forall|k: int| 0 <= k < tokenize(s).len() implies (#[trigger] tokenize(s)[k] matches SpecToken::Word(w) ==> w.len() > 0) by {
        assert(tokenize(s)[k] == classify(split_words(s)[k]));
    }
}


/// Whitespace only separates words: splitting `a`, then one whitespace
/// character, then `b` gives the words of `a` followed by the words of `b`.
pub proof fn lemma_whitespace_separates(a: Seq<char>, w: char, b: Seq<char>)
    requires
        is_whitespace(w),
    ensures
        split_words(a + seq![w] + b) == split_words(a) + split_words(b),
    decreases b.len(),
{
    let s = a + seq![w] + b;
    if b.len() == 0 {
        assert(s.drop_last() =~= a);
        assert(split_words(b) =~= Seq::<Seq<char>>::empty());
        assert(split_words(a) + split_words(b) =~= split_words(a));
    } else {
        let bl = b.drop_last();
        assert(s.drop_last() =~= a + seq![w] + bl);
        lemma_whitespace_separates(a, w, bl);
        let prev = split_words(s.drop_last());
        assert(prev == split_words(a) + split_words(bl));
        let c = s.last();
        assert(c == b.last());
        if is_whitespace(c) {
            assert(split_words(b) == split_words(bl));
        } else if s.len() >= 2 && !is_whitespace(s[s.len() - 2]) {
            if b.len() == 1 {
                assert(s[s.len() - 2] == w);
            }
            assert(b.len() >= 2);
            assert(s[s.len() - 2] == b[b.len() - 2]);
            assert(bl.last() == b[b.len() - 2]);
            lemma_split_words_last(bl);
            let pb = split_words(bl);
            assert(split_words(b) == pb.update(pb.len() - 1, pb.last().push(c)));
            assert(prev.last() == pb.last());
            assert(split_words(s) =~= split_words(a) + split_words(b));
        } else {
            if b.len() >= 2 {
                assert(s[s.len() - 2] == b[b.len() - 2]);
            }
            assert(split_words(b) == split_words(bl).push(seq![c]));
            assert(split_words(s) =~= split_words(a) + split_words(b));
        }
    }
}

/// Whitespace at the start of a line contributes no word.
proof fn lemma_leading_whitespace(ws: Seq<char>, b: Seq<char>)
    requires
        forall|k: int| 0 <= k < ws.len() ==> is_whitespace(#[trigger] ws[k]),
    ensures
        split_words(ws + b) == split_words(b),
    decreases ws.len(),
{
    if ws.len() == 0 {
        assert(ws + b =~= b);
    } else {
        let rest = ws.drop_first();
        assert forall|k: int| 0 <= k < rest.len() implies is_whitespace(#[trigger] rest[k]) by {
            assert(rest[k] == ws[k + 1]);
        }
        lemma_leading_whitespace(rest, b);
        assert(ws + b =~= Seq::<char>::empty() + seq![ws[0]] + (rest + b));
        lemma_whitespace_separates(Seq::<char>::empty(), ws[0], rest + b);
        assert(split_words(Seq::<char>::empty()) + split_words(rest + b) =~= split_words(rest + b));
    }
}

/// Whitespace at the end of a line contributes no word.
proof fn lemma_trailing_whitespace(b: Seq<char>, ws: Seq<char>)
    requires
        forall|k: int| 0 <= k < ws.len() ==> is_whitespace(#[trigger] ws[k]),
    ensures
        split_words(b + ws) == split_words(b),
    decreases ws.len(),
{
    if ws.len() == 0 {
        assert(b + ws =~= b);
    } else {
        let init = ws.drop_last();
        assert forall|k: int| 0 <= k < init.len() implies is_whitespace(#[trigger] init[k]) by {
            assert(init[k] == ws[k]);
        }
        lemma_trailing_whitespace(b, init);
        assert((b + ws).drop_last() =~= b + init);
        assert((b + ws).last() == ws[ws.len() - 1]);
    }
}

/// A run of whitespace between two parts of a line may be replaced by a
/// single whitespace character, and whitespace at either end of the line may
/// be dropped, without changing the tokens.
pub proof fn lemma_whitespace_runs(a: Seq<char>, ws: Seq<char>, w: char, b: Seq<char>)
    requires
        is_whitespace(w),
        forall|k: int| 0 <= k < ws.len() ==> is_whitespace(#[trigger] ws[k]),
    ensures
        tokenize(a + ws + seq![w] + b) == tokenize(a + seq![w] + b),
        tokenize(ws + b) == tokenize(b),
        tokenize(b + ws) == tokenize(b),
{
    lemma_leading_whitespace(ws, b);
    lemma_trailing_whitespace(b, ws);
    let run = ws + seq![w];
    assert forall|k: int| 0 <= k < run.len() implies is_whitespace(#[trigger] run[k]) by {
        if k < ws.len() {
            assert(run[k] == ws[k]);
        }
    }
    assert(run.len() > 0);
    let rest = run.drop_first();
    assert forall|k: int| 0 <= k < rest.len() implies is_whitespace(#[trigger] rest[k]) by {
        assert(rest[k] == run[k + 1]);
    }
    assert(a + ws + seq![w] + b =~= a + seq![run[0]] + (rest + b));
    lemma_whitespace_separates(a, run[0], rest + b);
    lemma_leading_whitespace(rest, b);
    lemma_whitespace_separates(a, w, b);
    assert(split_words(a + ws + seq![w] + b) == split_words(a + seq![w] + b));
}

} // verus!
