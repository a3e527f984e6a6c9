//! The tokenizer: scans raw comment text into a flat stream of tokens with
//! one-token lookahead and per-line marker stripping.
//!
//! A token is either a single newline character, or one leading character
//! merged with a following run of space, tab or non-breaking space and then a
//! run of ASCII letters, digits or underscore. At the start of a line the
//! markers `!`, `<` and one following space are stripped before the token.

use vstd::prelude::*;
use vstd::slice::{slice_index_get, slice_subrange, slice_to_vec};
use crate::chars::{is_merge_ws, is_word_char, merge_ws, word_char};

verus! {

/// Position after stripping the line-leading markers at `pos`: an optional
/// `!`, then an optional `<`, then one space if `!` or `<` was present.
pub open spec fn strip_pos(text: Seq<char>, pos: int) -> int {
    let p1 = if pos < text.len() && text[pos] == '!' {
        pos + 1
    } else {
        pos
    };
    let p2 = if p1 < text.len() && text[p1] == '<' {
        p1 + 1
    } else {
        p1
    };
    if (p1 != pos || p2 != p1) && p2 < text.len() && text[p2] == ' ' {
        p2 + 1
    } else {
        p2
    }
}

/// Position after the run of merge whitespace that begins at `i`.
pub open spec fn scan_ws(text: Seq<char>, i: int) -> int
    decreases text.len() - i,
{
    if 0 <= i && i < text.len() && is_merge_ws(text[i]) {
        scan_ws(text, i + 1)
    } else {
        i
    }
}

/// Position after the run of word characters that begins at `i`.
pub open spec fn scan_word(text: Seq<char>, i: int) -> int
    decreases text.len() - i,
{
    if 0 <= i && i < text.len() && is_word_char(text[i]) {
        scan_word(text, i + 1)
    } else {
        i
    }
}

/// Where the token that begins at `s` ends: a newline is its own token; any
/// other first character is merged with following whitespace and word runs.
pub open spec fn token_end(text: Seq<char>, s: int) -> int
    recommends
        0 <= s < text.len(),
{
    if text[s] == '\n' {
        s + 1
    } else {
        scan_word(text, scan_ws(text, s + 1))
    }
}

/// Where the next token begins: markers are stripped first at line starts.
pub open spec fn next_start(text: Seq<char>, pos: int, sol: bool) -> int {
    if sol {
        strip_pos(text, pos)
    } else {
        pos
    }
}

/// Whether another token exists at cursor (`pos`, `sol`).
pub open spec fn has_token(text: Seq<char>, pos: int, sol: bool) -> bool {
    next_start(text, pos, sol) < text.len()
}

/// The next token's characters at cursor (`pos`, `sol`).
pub open spec fn tok_val(text: Seq<char>, pos: int, sol: bool) -> Seq<char> {
    text.subrange(next_start(text, pos, sol), token_end(text, next_start(text, pos, sol)))
}

/// The start-of-line flag after consuming the next token.
pub open spec fn sol_after(text: Seq<char>, pos: int, sol: bool) -> bool {
    text[next_start(text, pos, sol)] == '\n'
}

pub proof fn lemma_scan_ws_bounds(text: Seq<char>, i: int)
    requires
        0 <= i <= text.len(),
    ensures
        i <= scan_ws(text, i) <= text.len(),
    decreases text.len() - i,
{
    if i < text.len() && is_merge_ws(text[i]) {
        lemma_scan_ws_bounds(text, i + 1);
    }
}

pub proof fn lemma_scan_word_bounds(text: Seq<char>, i: int)
    requires
        0 <= i <= text.len(),
    ensures
        i <= scan_word(text, i) <= text.len(),
    decreases text.len() - i,
{
    if i < text.len() && is_word_char(text[i]) {
        lemma_scan_word_bounds(text, i + 1);
    }
}

pub proof fn lemma_scan_ws_run(text: Seq<char>, i: int)
    requires
        0 <= i <= text.len(),
    ensures
        forall|j: int| i <= j < scan_ws(text, i) ==> is_merge_ws(#[trigger] text[j]),
    decreases text.len() - i,
{
    if i < text.len() && is_merge_ws(text[i]) {
        lemma_scan_ws_run(text, i + 1);
    }
}

pub proof fn lemma_scan_word_run(text: Seq<char>, i: int)
    requires
        0 <= i <= text.len(),
    ensures
        forall|j: int| i <= j < scan_word(text, i) ==> is_word_char(#[trigger] text[j]),
    decreases text.len() - i,
{
    if i < text.len() && is_word_char(text[i]) {
        lemma_scan_word_run(text, i + 1);
    }
}

/// A token occupies at least one character and ends within the text.
pub proof fn lemma_token_end_bounds(text: Seq<char>, s: int)
    requires
        0 <= s < text.len(),
    ensures
        s < token_end(text, s) <= text.len(),
{
    if text[s] != '\n' {
        lemma_scan_ws_bounds(text, s + 1);
        lemma_scan_word_bounds(text, scan_ws(text, s + 1));
    }
}

/// The tokenizer cursor: the whole text, the current position, and whether
/// the cursor stands at the start of a line. Copying it is cheap and exact,
/// which is how lookahead commits only on explicit consumption.
#[derive(Clone, Copy, Debug)]
pub struct Tokens<'a> {
    pub text: &'a [char],
    pub pos: usize,
    pub start_of_line: bool,
}

/// A token produced by lookahead: the characters between `start` and the
/// position of the cursor `future_tokens`, which a caller commits by handing
/// the token to `Tokens::consume`.
#[derive(Clone, Copy, Debug)]
pub struct Token<'a> {
    pub start: usize,
    pub future_tokens: Tokens<'a>,
}

impl<'a> Tokens<'a> {
    pub open spec fn wf(self) -> bool {
        self.pos <= self.text@.len()
    }

    pub open spec fn stext(self) -> Seq<char> {
        self.text@
    }

    pub open spec fn cur(self) -> int {
        self.pos as int
    }

    pub open spec fn sol(self) -> bool {
        self.start_of_line
    }

    pub open spec fn has_next(self) -> bool {
        has_token(self.stext(), self.cur(), self.sol())
    }

    pub fn new(input: &'a [char]) -> (r: Tokens<'a>)
        ensures
            r.stext() == input@,
            r.cur() == 0,
            r.sol() == true,
            r.wf(),
    {
        Tokens { text: input, pos: 0, start_of_line: true }
    }

    /// The unconsumed remainder of the input.
    pub fn as_str(&self) -> (r: &'a [char])
        requires
            self.wf(),
        ensures
            r@ == self.stext().subrange(self.cur(), self.stext().len() as int),
    {
        slice_subrange(self.text, self.pos, self.text.len())
    }

    /// The characters consumed since position `start`.
    pub fn take_range(&self, start: usize) -> (r: &'a [char])
        requires
            self.wf(),
            start <= self.pos,
        ensures
            r@ == self.stext().subrange(start as int, self.cur()),
    {
        slice_subrange(self.text, start, self.pos)
    }

    pub fn peek_char(&self) -> (r: Option<char>)
        requires
            self.wf(),
        ensures
            r == if self.cur() < self.stext().len() {
                Some(self.stext()[self.cur()])
            } else {
                None::<char>
            },
    {
        if self.pos < self.text.len() {
            Some(*slice_index_get(self.text, self.pos))
        } else {
            None
        }
    }

    pub fn next_char(&mut self) -> (r: Option<char>)
        requires
            old(self).wf(),
        ensures
            final(self).wf(),
            final(self).stext() == old(self).stext(),
            final(self).sol() == old(self).sol(),
            if old(self).cur() < old(self).stext().len() {
                r == Some(old(self).stext()[old(self).cur()]) && final(self).cur() == old(
                    self,
                ).cur() + 1
            } else {
                r is None && final(self).cur() == old(self).cur()
            },
    {
        if self.pos < self.text.len() {
            let c = *slice_index_get(self.text, self.pos);
            self.pos = self.pos + 1;
            Some(c)
        } else {
            None
        }
    }

    /// Consumes the next character exactly when it equals `c`.
    pub fn maybe_char(&mut self, c: char) -> (r: bool)
        requires
            old(self).wf(),
        ensures
            final(self).wf(),
            final(self).stext() == old(self).stext(),
            final(self).sol() == old(self).sol(),
            if old(self).cur() < old(self).stext().len() && old(self).stext()[old(self).cur()]
                == c {
                r && final(self).cur() == old(self).cur() + 1
            } else {
                !r && final(self).cur() == old(self).cur()
            },
    {
        if self.pos < self.text.len() {
            let d = *slice_index_get(self.text, self.pos);
            if d == c {
                self.pos = self.pos + 1;
                return true;
            }
        }
        false
    }

    /// Produces the next token and commits the cursor past it, returning the
    /// start position of the token's characters.
    fn advance(&mut self) -> (r: Option<usize>)
        requires
            old(self).wf(),
        ensures
            final(self).wf(),
            final(self).stext() == old(self).stext(),
            final(self).text == old(self).text,
            ({
                let t = old(self).stext();
                let p = old(self).cur();
                let sol = old(self).sol();
                if has_token(t, p, sol) {
                    &&& r matches Some(s) && s as int == next_start(t, p, sol)
                    &&& final(self).cur() == token_end(t, next_start(t, p, sol))
                    &&& final(self).sol() == sol_after(t, p, sol)
                } else {
                    &&& r is None
                    &&& final(self).cur() == next_start(t, p, sol)
                    &&& final(self).sol() == false
                }
            }),
    {
        let ghost t = self.stext();
        let ghost p0 = self.cur();
        let ghost sol0 = self.sol();
        if self.start_of_line {
            let prefixed = self.maybe_char('!');
            let lt = self.maybe_char('<');
            if lt || prefixed {
                let _ = self.maybe_char(' ');
            }
            self.start_of_line = false;
        }
        assert(self.cur() == next_start(t, p0, sol0));
        let start = self.pos;
        let c = match self.next_char() {
            None => {
                return None;
            },
            Some(c) => c,
        };
        if c == '\n' {
            self.start_of_line = true;
            return Some(start);
        }
        let n = self.text.len();
        while self.pos < n && merge_ws(*slice_index_get(self.text, self.pos))
            invariant
                self.wf(),
                self.stext() == t,
                self.text == old(self).text,
                self.sol() == false,
                n == t.len(),
                start as int + 1 <= self.cur() <= n,
                scan_ws(t, start as int + 1) == scan_ws(t, self.cur()),
            decreases n - self.pos,
        {
            self.pos = self.pos + 1;
        }
        assert(self.cur() == scan_ws(t, start as int + 1));
        let ghost j = self.cur();
        while self.pos < n && word_char(*slice_index_get(self.text, self.pos))
            invariant
                self.wf(),
                self.stext() == t,
                self.text == old(self).text,
                self.sol() == false,
                n == t.len(),
                j <= self.cur() <= n,
                scan_word(t, j) == scan_word(t, self.cur()),
            decreases n - self.pos,
        {
            self.pos = self.pos + 1;
        }
        assert(self.cur() == token_end(t, start as int));
        Some(start)
    }

    /// Produces the next token and commits the cursor past it.
    pub fn next(&mut self) -> (r: Option<&'a [char]>)
        requires
            old(self).wf(),
        ensures
            final(self).wf(),
            final(self).stext() == old(self).stext(),
            ({
                let t = old(self).stext();
                let p = old(self).cur();
                let sol = old(self).sol();
                if has_token(t, p, sol) {
                    &&& r matches Some(v) && v@ == tok_val(t, p, sol)
                    &&& final(self).cur() == token_end(t, next_start(t, p, sol))
                    &&& final(self).sol() == sol_after(t, p, sol)
                } else {
                    &&& r is None
                    &&& final(self).cur() == next_start(t, p, sol)
                    &&& final(self).sol() == false
                }
            }),
    {
        let text = self.text;
        match self.advance() {
            None => None,
            Some(start) => {
                proof {
                    lemma_token_end_bounds(
                        old(self).stext(),
                        next_start(old(self).stext(), old(self).cur(), old(self).sol()),
                    );
                }
                Some(slice_subrange(text, start, self.pos))
            },
        }
    }

    /// One token of lookahead: returns the next token without moving this
    /// cursor; `consume` commits exactly the state captured in the token.
    pub fn peek(&self) -> (r: Option<Token<'a>>)
        requires
            self.wf(),
        ensures
            if self.has_next() {
                r matches Some(tk) && token_at(tk, self.stext(), self.cur(), self.sol()) && at_pos(
                    tk,
                    self.stext(),
                    next_start(self.stext(), self.cur(), self.sol()),
                    token_end(self.stext(), next_start(self.stext(), self.cur(), self.sol())),
                )
            } else {
                r is None
            },
    {
        let mut future_tokens = *self;
        match future_tokens.advance() {
            None => None,
            Some(start) => {
                proof {
                    lemma_token_end_bounds(
                        self.stext(),
                        next_start(self.stext(), self.cur(), self.sol()),
                    );
                }
                Some(Token { start, future_tokens })
            },
        }
    }

    /// Commits the cursor to the state captured by `token` and returns the
    /// token's characters.
    pub fn consume(&mut self, token: Token<'a>) -> (r: &'a [char])
        requires
            token.wf(),
        ensures
            *final(self) == token.future_tokens,
            final(self).wf(),
            r@ == token.val(),
    {
        self.text = token.future_tokens.text;
        self.pos = token.future_tokens.pos;
        self.start_of_line = token.future_tokens.start_of_line;
        slice_subrange(token.future_tokens.text, token.start, token.future_tokens.pos)
    }
}

/// Whether `tk` is the token that the cursor (`text`, `pos`, `sol`) yields.
pub open spec fn token_at(tk: Token, text: Seq<char>, pos: int, sol: bool) -> bool {
    &&& tk.future_tokens.stext() == text
    &&& tk.start as int == next_start(text, pos, sol)
    &&& tk.future_tokens.cur() == token_end(text, next_start(text, pos, sol))
    &&& tk.future_tokens.sol() == sol_after(text, pos, sol)
}

/// Whether another token follows the token of `text` that spans `s` to `e`.
pub open spec fn g_has_next(text: Seq<char>, s: int, e: int) -> bool {
    has_token(text, e, text[s] == '\n')
}

/// Where the token after the token spanning `s` to `e` begins.
pub open spec fn g_next_s(text: Seq<char>, s: int, e: int) -> int {
    next_start(text, e, text[s] == '\n')
}

/// Where the token after the token spanning `s` to `e` ends.
pub open spec fn g_next_e(text: Seq<char>, s: int, e: int) -> int {
    token_end(text, g_next_s(text, s, e))
}

/// A token as the tokenizer yields them: it spans exactly one token of its
/// text, and its captured cursor records whether it ended a line.
pub open spec fn placed(tk: Token) -> bool {
    &&& tk.wf()
    &&& tk.future_tokens.cur() == token_end(tk.future_tokens.stext(), tk.start as int)
    &&& tk.future_tokens.sol() == (tk.future_tokens.stext()[tk.start as int] == '\n')
}

/// Whether `tk` is the token of `text` that spans `s` to `e`.
pub open spec fn at_pos(tk: Token, text: Seq<char>, s: int, e: int) -> bool {
    &&& placed(tk)
    &&& tk.future_tokens.stext() == text
    &&& tk.start as int == s
    &&& tk.future_tokens.cur() == e
}

impl<'a> Token<'a> {
    /// The token's characters.
    pub open spec fn val(self) -> Seq<char> {
        self.future_tokens.stext().subrange(self.start as int, self.future_tokens.cur())
    }

    pub open spec fn wf(self) -> bool {
        self.start < self.future_tokens.pos && self.future_tokens.wf()
    }

    /// The cursor that consuming this token commits.
    pub open spec fn after(self) -> Tokens<'a> {
        self.future_tokens
    }

    pub fn len(&self) -> (r: usize)
        requires
            self.wf(),
        ensures
            r == self.val().len(),
    {
        self.future_tokens.pos - self.start
    }

    pub fn char_at(&self, i: usize) -> (r: char)
        requires
            self.wf(),
            i < self.val().len(),
        ensures
            r == self.val()[i as int],
    {
        *slice_index_get(self.future_tokens.text, self.start + i)
    }

    /// The token's characters, copied into an owned piece.
    pub fn to_piece(&self) -> (r: Vec<char>)
        requires
            self.wf(),
        ensures
            r@ == self.val(),
    {
        slice_to_vec(
            slice_subrange(self.future_tokens.text, self.start, self.future_tokens.pos),
        )
    }

    /// Replaces this token by the one after it, keeping the lookahead
    /// discipline: nothing is committed to any live cursor.
    pub fn peek(self) -> (r: Option<Token<'a>>)
        requires
            self.wf(),
        ensures
            ({
                let text = self.future_tokens.stext();
                let p = self.future_tokens.cur();
                let sol = self.future_tokens.sol();
                if has_token(text, p, sol) {
                    r matches Some(tk) && at_pos(
                        tk,
                        text,
                        next_start(text, p, sol),
                        token_end(text, next_start(text, p, sol)),
                    )
                } else {
                    r is None
                }
            }),
    {
        self.future_tokens.peek()
    }
}

} // verus!
