//! The block body collector, the section accumulator, and the renderer.
//!
//! A `Doc` consumes one comment's token stream, dispatches recognized block
//! commands to section handlers, and assembles the accumulated sections into
//! the final Markdown string.

use vstd::prelude::*;
use crate::chars::{all_blank, is_alnum_char, is_lower_char, is_upper_char, lower_chars,
    upper_chars, trim_start_chars, trim_end_chars, join, lemma_trim_start_nonblank,
    lemma_trim_end_nonblank, char_is_alphanumeric, char_is_lowercase, char_is_uppercase,
    char_to_lowercase, char_to_uppercase, trim_start_piece, trim_end_piece, piece_is_blank,
    piece_clone, piece_push_str, piece_push_slice, piece_push_piece, join_pieces, str_to_piece,
    chars_to_string};
use crate::tokens::{Tokens, Token, has_token, next_start, token_end, tok_val, sol_after,
    lemma_token_end_bounds, at_pos, placed, g_has_next, g_next_s, g_next_e};
use crate::commands::{Command, GCmd, spec_block_type, spec_inline, spec_code_language,
    block_type, inline_command};

verus! {

broadcast use crate::chars::lemma_piece_deep;

/// One step of body collection: either a batch of pieces was consumed, or the
/// section ended at the cursor recorded in `Stop`.
pub enum GStep {
    Piece { batch: Seq<Seq<char>>, pos: int, sol: bool, nl: bool },
    Stop { pos: int, sol: bool },
}

/// The cursor after consuming the run of consecutive newline tokens that
/// begins at (`pos`, `sol`).
pub open spec fn spec_skip_newlines(text: Seq<char>, pos: int, sol: bool) -> (int, bool)
    decreases text.len() - pos,
        via skip_newlines_dec
{
    if 0 <= pos && has_token(text, pos, sol) && tok_val(text, pos, sol) == seq!['\n'] {
        spec_skip_newlines(
            text,
            token_end(text, next_start(text, pos, sol)),
            sol_after(text, pos, sol),
        )
    } else {
        (pos, sol)
    }
}

#[via_fn]
proof fn skip_newlines_dec(text: Seq<char>, pos: int, sol: bool) {
    if 0 <= pos && has_token(text, pos, sol) && tok_val(text, pos, sol) == seq!['\n'] {
        lemma_token_end_bounds(text, next_start(text, pos, sol));
    }
}

pub proof fn lemma_skip_bounds(text: Seq<char>, pos: int, sol: bool)
    requires
        0 <= pos <= text.len(),
    ensures
        pos <= spec_skip_newlines(text, pos, sol).0 <= text.len(),
    decreases text.len() - pos,
{
    if 0 <= pos && has_token(text, pos, sol) && tok_val(text, pos, sol) == seq!['\n'] {
        lemma_token_end_bounds(text, next_start(text, pos, sol));
        lemma_skip_bounds(
            text,
            token_end(text, next_start(text, pos, sol)),
            sol_after(text, pos, sol),
        );
    }
}

/// One step of body collection at cursor (`pos`, `sol`), where `nl` says
/// whether the section has already wrapped onto a new line. A blank line ends
/// the section after consuming its newlines; a newline followed by a
/// recognized block command ends it without consuming anything; an inline
/// command contributes its substitution; any other token is one piece.
pub open spec fn spec_body_step(text: Seq<char>, pos: int, sol: bool, nl: bool) -> GStep {
    if !(0 <= pos && has_token(text, pos, sol)) {
        GStep::Stop { pos, sol }
    } else {
        let s = next_start(text, pos, sol);
        let e = token_end(text, s);
        let v = text.subrange(s, e);
        if v[0] == '\n' && nl {
            let sk = spec_skip_newlines(text, pos, sol);
            GStep::Stop { pos: sk.0, sol: sk.1 }
        } else if (v[0] == '@' || v[0] == '\\') && nl && spec_block_type(text, s, e) is Some {
            GStep::Stop { pos, sol }
        } else if v[0] == '\\' && spec_inline(text, s, e) is Some {
            let (batch, as_, ae) = spec_inline(text, s, e)->Some_0;
            GStep::Piece { batch, pos: ae, sol: text[as_] == '\n', nl: false }
        } else {
            GStep::Piece { batch: seq![v], pos: e, sol: text[s] == '\n', nl: v[0] == '\n' }
        }
    }
}

/// A consumed step advances the cursor; a stop never moves it backwards.
pub proof fn lemma_step_advance(text: Seq<char>, pos: int, sol: bool, nl: bool)
    ensures
        (spec_body_step(text, pos, sol, nl) matches GStep::Piece { pos: p2, .. } ==> pos < p2
            <= text.len()),
        (spec_body_step(text, pos, sol, nl) matches GStep::Stop { pos: p2, .. } ==> pos <= p2 && (
        p2 == pos || p2 <= text.len())),
{
    if 0 <= pos && has_token(text, pos, sol) {
        let s = next_start(text, pos, sol);
        let e = token_end(text, s);
        let v = text.subrange(s, e);
        lemma_token_end_bounds(text, s);
        if v[0] == '\n' && nl {
            lemma_skip_bounds(text, pos, sol);
        } else if (v[0] == '@' || v[0] == '\\') && nl && spec_block_type(text, s, e) is Some {
        } else if v[0] == '\\' && spec_inline(text, s, e) is Some {
            let (batch, as_, ae) = spec_inline(text, s, e)->Some_0;
            lemma_token_end_bounds(text, as_);
        }
    }
}

/// The raw pieces that body collection consumes from cursor (`pos`, `sol`),
/// with the cursor where collection stops.
pub open spec fn spec_collect(text: Seq<char>, pos: int, sol: bool, nl: bool) -> (
    Seq<Seq<char>>,
    int,
    bool,
)
    decreases text.len() - pos,
        via collect_dec
{
    match spec_body_step(text, pos, sol, nl) {
        GStep::Stop { pos: p2, sol: s2 } => (Seq::empty(), p2, s2),
        GStep::Piece { batch, pos: p2, sol: s2, nl: n2 } => {
            let rest = spec_collect(text, p2, s2, n2);
            (batch + rest.0, rest.1, rest.2)
        },
    }
}

#[via_fn]
proof fn collect_dec(text: Seq<char>, pos: int, sol: bool, nl: bool) {
    lemma_step_advance(text, pos, sol, nl);
}

pub proof fn lemma_collect_bounds(text: Seq<char>, pos: int, sol: bool, nl: bool)
    requires
        0 <= pos <= text.len(),
    ensures
        pos <= spec_collect(text, pos, sol, nl).1 <= text.len(),
        spec_collect(text, pos, sol, nl).0.len() > 0 ==> pos < spec_collect(text, pos, sol, nl).1,
    decreases text.len() - pos,
{
    lemma_step_advance(text, pos, sol, nl);
    match spec_body_step(text, pos, sol, nl) {
        GStep::Stop { pos: p2, sol: s2 } => {},
        GStep::Piece { batch, pos: p2, sol: s2, nl: n2 } => {
            lemma_collect_bounds(text, p2, s2, n2);
        },
    }
}

/// The index of the last piece that is not all whitespace, or -1.
pub open spec fn last_nonblank(ps: Seq<Seq<char>>) -> int
    decreases ps.len(),
{
    if ps.len() == 0 {
        -1
    } else if !all_blank(ps.last()) {
        ps.len() - 1
    } else {
        last_nonblank(ps.drop_last())
    }
}

pub proof fn lemma_last_nonblank_range(ps: Seq<Seq<char>>)
    ensures
        -1 <= last_nonblank(ps) < ps.len(),
        last_nonblank(ps) >= 0 ==> !all_blank(ps[last_nonblank(ps)]),
        forall|j: int| last_nonblank(ps) < j < ps.len() ==> all_blank(#[trigger] ps[j]),
    decreases ps.len(),
{
    if ps.len() > 0 && all_blank(ps.last()) {
        lemma_last_nonblank_range(ps.drop_last());
        assert forall|j: int| last_nonblank(ps) < j < ps.len() implies all_blank(
            #[trigger] ps[j],
        ) by {
            if j < ps.len() - 1 {
                assert(ps.drop_last()[j] == ps[j]);
            }
        }
    }
}

pub proof fn lemma_last_nonblank_at(ps: Seq<Seq<char>>, l: int)
    requires
        0 <= l <= ps.len(),
        forall|j: int| l <= j < ps.len() ==> all_blank(#[trigger] ps[j]),
        l > 0 ==> !all_blank(ps[l - 1]),
    ensures
        last_nonblank(ps) == l - 1,
    decreases ps.len(),
{
    if ps.len() == 0 {
    } else if l == ps.len() {
    } else {
        assert(all_blank(ps.last()));
        lemma_last_nonblank_at(ps.drop_last(), l);
    }
}

/// The collected pieces after end trimming: trailing all-whitespace pieces
/// are dropped, the first piece loses its leading whitespace, and the last
/// kept piece loses its trailing whitespace. A body of only whitespace
/// trims to nothing.
pub open spec fn spec_trim_body(ps: Seq<Seq<char>>) -> Seq<Seq<char>> {
    let l = last_nonblank(ps);
    if l < 0 {
        Seq::empty()
    } else if l == 0 {
        seq![trim_end_chars(trim_start_chars(ps[0]))]
    } else {
        seq![trim_start_chars(ps[0])] + ps.subrange(1, l) + seq![trim_end_chars(ps[l])]
    }
}

/// A trimmed body's last piece is never empty.
pub proof fn lemma_trim_body_last(ps: Seq<Seq<char>>)
    ensures
        spec_trim_body(ps).len() > 0 ==> spec_trim_body(ps).last().len() > 0,
{
    lemma_last_nonblank_range(ps);
    let l = last_nonblank(ps);
    if l == 0 {
        lemma_trim_start_nonblank(ps[0]);
        lemma_trim_end_nonblank(trim_start_chars(ps[0]));
    } else if l > 0 {
        lemma_trim_end_nonblank(ps[l]);
    }
}

/// One whole section body: the pieces collected until the section ends,
/// trimmed, and the cursor where the next section begins.
pub open spec fn spec_block_body(text: Seq<char>, pos: int, sol: bool) -> (Seq<Seq<char>>, int, bool) {
    let c = spec_collect(text, pos, sol, false);
    (spec_trim_body(c.0), c.1, c.2)
}

/// A body in sentence form: a period is appended when the last retained
/// character is alphanumeric.
pub open spec fn spec_paragraph_of(ps: Seq<Seq<char>>) -> Seq<Seq<char>> {
    if ps.len() > 0 && ps.last().len() > 0 && is_alnum_char(ps.last().last()) {
        ps.push(seq!['.'])
    } else {
        ps
    }
}

/// The per-comment accumulator: the sections collected so far.
#[verifier::ext_equal]
pub struct GAcc {
    pub deprecated: Option<Seq<char>>,
    pub brief: Option<Seq<char>>,
    pub message: Seq<Seq<char>>,
    pub returns: Option<Seq<char>>,
    pub see_also: Seq<Seq<char>>,
}

pub open spec fn empty_acc() -> GAcc {
    GAcc {
        deprecated: None,
        brief: None,
        message: Seq::empty(),
        returns: None,
        see_also: Seq::empty(),
    }
}

/// The body with its first character forced to upper or lower case by the
/// Unicode one-to-many case mapping, when it is not already cased so.
pub open spec fn force_first(ps: Seq<Seq<char>>, to_upper: bool) -> Seq<Seq<char>> {
    if ps.len() > 0 && ps[0].len() > 0 {
        let c = ps[0][0];
        if to_upper {
            if !is_upper_char(c) {
                ps.update(0, upper_chars(c) + ps[0].drop_first())
            } else {
                ps
            }
        } else {
            if !is_lower_char(c) {
                ps.update(0, lower_chars(c) + ps[0].drop_first())
            } else {
                ps
            }
        }
    } else {
        ps
    }
}

/// The effect of one classified command on the accumulator, given the
/// trimmed body collected for it.
pub open spec fn spec_handle(acc: GAcc, cmd: GCmd, body: Seq<Seq<char>>) -> GAcc {
    match cmd {
        GCmd::Brief => {
            let b = spec_paragraph_of(body);
            if b.len() > 0 {
                GAcc { brief: Some(join(b)), ..acc }
            } else {
                acc
            }
        },
        GCmd::Code { language } => GAcc {
            message: acc.message.push(
                "```"@ + language + "\n"@ + join(body) + "\n```"@,
            ),
            ..acc
        },
        GCmd::Deprecated => GAcc { deprecated: Some(join(spec_paragraph_of(body))), ..acc },
        GCmd::Invalidate => empty_acc(),
        GCmd::Plain => {
            let b = spec_paragraph_of(body);
            if b.len() > 0 {
                GAcc { message: acc.message.push(join(force_first(b, true))), ..acc }
            } else {
                acc
            }
        },
        GCmd::Returns => {
            let b = spec_paragraph_of(body);
            if b.len() > 0 {
                GAcc { returns: Some(join(force_first(b, false))), ..acc }
            } else {
                acc
            }
        },
        GCmd::SeeAlso => if body.len() > 0 {
            GAcc { see_also: acc.see_also.push(join(body)), ..acc }
        } else {
            acc
        },
        GCmd::Skip => acc,
    }
}

pub proof fn lemma_code_language_bounds(text: Seq<char>, s: int, e: int)
    requires
        0 <= s < e <= text.len(),
    ensures
        spec_code_language(text, s, e) matches Some((lang, cs, ce)) ==> e <= cs < ce <= text.len(),
{
    if spec_code_language(text, s, e) is Some {
        let es = g_next_s(text, s, e);
        lemma_token_end_bounds(text, es);
        let ee = g_next_e(text, s, e);
        let cs = g_next_s(text, es, ee);
        lemma_token_end_bounds(text, cs);
    }
}

pub proof fn lemma_block_type_bounds(text: Seq<char>, s: int, e: int)
    requires
        0 <= s < e <= text.len(),
    ensures
        spec_block_type(text, s, e) matches Some((cmd, cs, ce)) ==> s <= cs < ce <= text.len() && e
            <= ce,
{
    if spec_block_type(text, s, e) is Some {
        let v = text.subrange(s, e);
        let rest = v.subrange(1, v.len() as int);
        if rest == "brief"@ {
        } else if rest == "code"@ {
            let os = g_next_s(text, s, e);
            lemma_token_end_bounds(text, os);
            lemma_code_language_bounds(text, os, g_next_e(text, s, e));
        } else if rest == "deprecated"@ {
        } else if rest.len() == 0 {
            let ns = g_next_s(text, s, e);
            lemma_token_end_bounds(text, ns);
        }
    }
}

/// The classify, collect, handle loop, run until the input is exhausted: a
/// token that classifies as a block command feeds the matching section
/// handler; each non-empty run of ordinary text becomes one message
/// paragraph; an all-whitespace paragraph contributes nothing but is consumed.
pub open spec fn spec_process(text: Seq<char>, pos: int, sol: bool, acc: GAcc) -> GAcc
    decreases text.len() - pos,
        via process_dec
{
    if 0 <= pos && has_token(text, pos, sol) && spec_block_type(
        text,
        next_start(text, pos, sol),
        token_end(text, next_start(text, pos, sol)),
    ) is Some {
        let s = next_start(text, pos, sol);
        let (cmd, cs, ce) = spec_block_type(text, s, token_end(text, s))->Some_0;
        let bb = spec_block_body(text, ce, text[cs] == '\n');
        spec_process(text, bb.1, bb.2, spec_handle(acc, cmd, bb.0))
    } else {
        let bb = spec_block_body(text, pos, sol);
        if bb.0.len() == 0 {
            if 0 <= pos && has_token(text, bb.1, bb.2) {
                spec_process(text, bb.1, bb.2, acc)
            } else {
                acc
            }
        } else {
            spec_process(
                text,
                bb.1,
                bb.2,
                GAcc { message: acc.message.push(join(spec_paragraph_of(bb.0))), ..acc },
            )
        }
    }
}

#[via_fn]
proof fn process_dec(text: Seq<char>, pos: int, sol: bool, acc: GAcc) {
    lemma_process_step_bounds(text, pos, sol);
}

/// Both branches of the processing loop advance the cursor when they recurse.
pub proof fn lemma_process_step_bounds(text: Seq<char>, pos: int, sol: bool)
    ensures
        (0 <= pos && has_token(text, pos, sol) && spec_block_type(
            text,
            next_start(text, pos, sol),
            token_end(text, next_start(text, pos, sol)),
        ) is Some) ==> ({
            let s = next_start(text, pos, sol);
            let (cmd, cs, ce) = spec_block_type(text, s, token_end(text, s))->Some_0;
            let bb = spec_block_body(text, ce, text[cs] == '\n');
            pos < bb.1 <= text.len()
        }),
        !(0 <= pos && has_token(text, pos, sol) && spec_block_type(
            text,
            next_start(text, pos, sol),
            token_end(text, next_start(text, pos, sol)),
        ) is Some) ==> ({
            let bb = spec_block_body(text, pos, sol);
            bb.0.len() > 0 ==> pos < bb.1 <= text.len()
        }),
        !(0 <= pos && has_token(text, pos, sol) && spec_block_type(
            text,
            next_start(text, pos, sol),
            token_end(text, next_start(text, pos, sol)),
        ) is Some) ==> ({
            let bb = spec_block_body(text, pos, sol);
            (bb.0.len() == 0 && 0 <= pos && has_token(text, bb.1, bb.2)) ==> pos < bb.1
                <= text.len()
        }),
{
    if 0 <= pos && has_token(text, pos, sol) {
        let s = next_start(text, pos, sol);
        let e = token_end(text, s);
        lemma_token_end_bounds(text, s);
        if spec_block_type(text, s, e) is Some {
            let (cmd, cs, ce) = spec_block_type(text, s, e)->Some_0;
            lemma_block_type_bounds(text, s, e);
            lemma_collect_bounds(text, ce, text[cs] == '\n', false);
        } else {
            let c = spec_collect(text, pos, sol, false);
            lemma_collect_bounds(text, pos, sol, false);
            lemma_last_nonblank_range(c.0);
            lemma_collect_empty_stays(text, pos, sol);
        }
    } else {
        let c = spec_collect(text, pos, sol, false);
        if spec_trim_body(c.0).len() > 0 || (0 <= pos && has_token(text, c.1, c.2)) {
            lemma_last_nonblank_range(c.0);
            lemma_collect_empty_stays(text, pos, sol);
            if c.0.len() > 0 {
                assert(spec_body_step(text, pos, sol, false) is Piece);
                assert(0 <= pos && has_token(text, pos, sol));
                assert(false);
            }
        }
    }
}

/// A body collection that consumes no piece leaves the cursor where it was,
/// at the end of the token stream.
pub proof fn lemma_collect_empty_stays(text: Seq<char>, pos: int, sol: bool)
    ensures
        spec_collect(text, pos, sol, false).0.len() == 0 ==> spec_collect(
            text,
            pos,
            sol,
            false,
        ).1 == pos && spec_collect(text, pos, sol, false).2 == sol && !(0 <= pos && has_token(
            text,
            pos,
            sol,
        )),
{
    let c = spec_collect(text, pos, sol, false);
    if c.0.len() == 0 {
        match spec_body_step(text, pos, sol, false) {
            GStep::Stop { pos: p2, sol: s2 } => {},
            GStep::Piece { batch, pos: p2, sol: s2, nl: n2 } => {
                assert(c.0.len() > 0);
            },
        }
    }
}

/// The concatenation of pieces with a separator between neighbours.
pub open spec fn join_sep(ps: Seq<Seq<char>>, sep: Seq<char>) -> Seq<char>
    decreases ps.len(),
{
    if ps.len() == 0 {
        Seq::empty()
    } else if ps.len() == 1 {
        ps[0]
    } else {
        join_sep(ps.drop_last(), sep) + sep + ps.last()
    }
}

/// The final assembly: the deprecated line, the brief line with its period,
/// the message paragraphs with the returns sentence spliced onto the last
/// one, and the see-also line, joined by blank lines; absence when every
/// section is empty.
/// The deprecated line and the brief line, as far as they are present.
pub open spec fn spec_head(acc: GAcc) -> Seq<Seq<char>> {
    let out0: Seq<Seq<char>> = if acc.deprecated is Some {
        seq!["**Deprecated: "@ + acc.deprecated->Some_0 + "**"@]
    } else {
        Seq::empty()
    };
    if acc.brief is Some {
        out0.push(acc.brief->Some_0 + "."@)
    } else {
        out0
    }
}

/// Every rendered section in order: the deprecated line, the brief line with
/// its period, the message paragraphs with the returns sentence spliced onto
/// the last one, and the see-also line.
pub open spec fn spec_sections(acc: GAcc) -> Seq<Seq<char>> {
    let out1 = spec_head(acc);
    let out2 = if acc.message.len() > 0 {
        if acc.returns is Some {
            let m2 = out1 + acc.message;
            m2.update(m2.len() - 1, acc.message.last() + " Returns "@ + acc.returns->Some_0)
        } else {
            out1 + acc.message
        }
    } else {
        if acc.returns is Some {
            out1.push("Returns "@ + acc.returns->Some_0)
        } else {
            out1
        }
    };
    if acc.see_also.len() > 0 {
        out2.push("See also "@ + join_sep(acc.see_also, ", "@) + "."@)
    } else {
        out2
    }
}

/// The final assembly: the sections joined by blank lines; absence when every
/// section is empty.
pub open spec fn spec_assemble(acc: GAcc) -> Option<Seq<char>> {
    let out3 = spec_sections(acc);
    if out3.len() == 0 {
        None
    } else {
        Some(join_sep(out3, "\n\n"@))
    }
}

/// What the translator yields for one whole comment: absence when no section
/// collected any text, the assembled Markdown otherwise.
pub open spec fn doc_spec(input: Seq<char>) -> Option<Seq<char>> {
    spec_assemble(spec_process(input, 0, true, empty_acc()))
}

/// The view of an accumulator field holding one section's text.
pub open spec fn view_opt(o: Option<Vec<char>>) -> Option<Seq<char>> {
    match o {
        Some(v) => Some(v@),
        None => None,
    }
}

/// The per-comment parser state: the token cursor and the accumulated
/// sections, consumed by `render` once the stream is exhausted.
pub struct Doc<'a> {
    pub tokens: Tokens<'a>,
    pub deprecated: Option<Vec<char>>,
    pub brief: Option<Vec<char>>,
    pub message: Vec<Vec<char>>,
    pub returns: Option<Vec<char>>,
    pub see_also: Vec<Vec<char>>,
}

impl<'a> Doc<'a> {
    pub open spec fn wf(self) -> bool {
        self.tokens.wf()
    }

    /// The accumulator's sections, as the ghost model sees them.
    pub open spec fn acc(self) -> GAcc {
        GAcc {
            deprecated: view_opt(self.deprecated),
            brief: view_opt(self.brief),
            message: self.message.deep_view(),
            returns: view_opt(self.returns),
            see_also: self.see_also.deep_view(),
        }
    }

    pub fn new(comment: &'a [char]) -> (r: Doc<'a>)
        ensures
            r.wf(),
            r.tokens.stext() == comment@,
            r.tokens.cur() == 0,
            r.tokens.sol() == true,
            r.acc() == empty_acc(),
    {
        let r = Doc {
            tokens: Tokens::new(comment),
            deprecated: None,
            brief: None,
            message: Vec::new(),
            returns: None,
            see_also: Vec::new(),
        };
        proof {
            assert(r.acc() =~~= empty_acc());
        }
        r
    }

    /// One step of body collection: the next batch of body pieces, with
    /// whether the consumed text ended in a newline; or nothing when the
    /// section ends, with the cursor placed for what follows it.
    pub fn body_token(&mut self, next_line: bool) -> (r: Option<(Vec<Vec<char>>, bool)>)
        requires
            old(self).wf(),
        ensures
            final(self).wf(),
            final(self).tokens.stext() == old(self).tokens.stext(),
            final(self).acc() == old(self).acc(),
            ({
                let text = old(self).tokens.stext();
                let step = spec_body_step(
                    text,
                    old(self).tokens.cur(),
                    old(self).tokens.sol(),
                    next_line,
                );
                match step {
                    GStep::Piece { batch, pos, sol, nl } => {
                        &&& r matches Some((b, inl))
                        &&& b.deep_view() == batch
                        &&& final(self).tokens.cur() == pos
                        &&& final(self).tokens.sol() == sol
                        &&& inl == nl
                    },
                    GStep::Stop { pos, sol } => {
                        &&& r is None
                        &&& final(self).tokens.cur() == pos
                        &&& final(self).tokens.sol() == sol
                    },
                }
            }),
            r is Some ==> old(self).tokens.cur() < final(self).tokens.cur(),
    {
        proof {
            lemma_step_advance(
                old(self).tokens.stext(),
                old(self).tokens.cur(),
                old(self).tokens.sol(),
                next_line,
            );
        }
        let ghost text = self.tokens.stext();
        let next_token = match self.tokens.peek() {
            None => {
                return None;
            },
            Some(t) => t,
        };
        let c = next_token.char_at(0);
        if c == '\n' && next_line {
            let ghost p0 = self.tokens.cur();
            let ghost sol0 = self.tokens.sol();
            #[verifier::loop_isolation(true)]
            loop
                invariant
                    self.tokens.wf(),
                    self.tokens.stext() == text,
                    self.deprecated == old(self).deprecated,
                    self.brief == old(self).brief,
                    self.message == old(self).message,
                    self.returns == old(self).returns,
                    self.see_also == old(self).see_also,
                    spec_skip_newlines(text, p0, sol0) == spec_skip_newlines(
                        text,
                        self.tokens.cur(),
                        self.tokens.sol(),
                    ),
                ensures
                    self.tokens.wf(),
                    self.tokens.stext() == text,
                    self.deprecated == old(self).deprecated,
                    self.brief == old(self).brief,
                    self.message == old(self).message,
                    self.returns == old(self).returns,
                    self.see_also == old(self).see_also,
                    (self.tokens.cur(), self.tokens.sol()) == spec_skip_newlines(text, p0, sol0),
                decreases text.len() - self.tokens.cur(),
            {
                let tk = match self.tokens.peek() {
                    None => {
                        break ;
                    },
                    Some(tk) => tk,
                };
                if !(tk.len() == 1 && tk.char_at(0) == '\n') {
                    proof {
                        if tok_val(text, self.tokens.cur(), self.tokens.sol()) == seq!['\n'] {
                            assert(tk.val() == seq!['\n']);
                        }
                    }
                    break ;
                }
                proof {
                    assert(tk.val() =~= seq!['\n']);
                    lemma_token_end_bounds(
                        text,
                        next_start(text, self.tokens.cur(), self.tokens.sol()),
                    );
                }
                let _ = self.tokens.consume(tk);
            }
            return None;
        }
        if (c == '@' || c == '\\') && next_line {
            let t2 = match self.tokens.peek() {
                None => {
                    return None;
                },
                Some(t) => t,
            };
            if let Some(_ignored) = block_type(t2) {
                return None;
            }
        }
        if c == '\\' {
            if let Some((token_batch, end_token)) = inline_command(next_token) {
                let _ = self.tokens.consume(end_token);
                return Some((token_batch, false));
            }
        }
        let piece = next_token.to_piece();
        let _ = self.tokens.consume(next_token);
        let mut batch: Vec<Vec<char>> = Vec::new();
        batch.push(piece);
        proof {
            let s = next_start(text, old(self).tokens.cur(), old(self).tokens.sol());
            let e = token_end(text, s);
            assert(batch.deep_view() =~~= seq![text.subrange(s, e)]);
        }
        Some((batch, c == '\n'))
    }

    /// Collects one whole section body: pieces until a blank line or the next
    /// block command, then trimmed at both ends.
    pub fn block_body(&mut self) -> (r: Vec<Vec<char>>)
        requires
            old(self).wf(),
        ensures
            final(self).wf(),
            final(self).tokens.stext() == old(self).tokens.stext(),
            final(self).acc() == old(self).acc(),
            ({
                let bb = spec_block_body(
                    old(self).tokens.stext(),
                    old(self).tokens.cur(),
                    old(self).tokens.sol(),
                );
                r.deep_view() == bb.0 && final(self).tokens.cur() == bb.1 && final(self).tokens.sol()
                    == bb.2
            }),
            r.deep_view().len() > 0 ==> old(self).tokens.cur() < final(self).tokens.cur(),
    {
        let ghost text = self.tokens.stext();
        let ghost p0 = self.tokens.cur();
        let ghost sol0 = self.tokens.sol();
        let mut body: Vec<Vec<char>> = Vec::new();
        let mut next_line = false;
        proof {
            assert(body.deep_view() =~~= Seq::<Seq<char>>::empty());
        }
        #[verifier::loop_isolation(true)]
        loop
            invariant_except_break
                spec_collect(text, p0, sol0, false).0 == body.deep_view() + spec_collect(
                    text,
                    self.tokens.cur(),
                    self.tokens.sol(),
                    next_line,
                ).0,
                spec_collect(text, p0, sol0, false).1 == spec_collect(
                    text,
                    self.tokens.cur(),
                    self.tokens.sol(),
                    next_line,
                ).1,
                spec_collect(text, p0, sol0, false).2 == spec_collect(
                    text,
                    self.tokens.cur(),
                    self.tokens.sol(),
                    next_line,
                ).2,
            invariant
                self.tokens.wf(),
                self.tokens.stext() == text,
                self.acc() == old(self).acc(),
                p0 <= self.tokens.cur(),
            ensures
                self.tokens.wf(),
                self.tokens.stext() == text,
                self.acc() == old(self).acc(),
                p0 <= self.tokens.cur(),
                spec_collect(text, p0, sol0, false).0 == body.deep_view(),
                spec_collect(text, p0, sol0, false).1 == self.tokens.cur(),
                spec_collect(text, p0, sol0, false).2 == self.tokens.sol(),
                body.deep_view().len() > 0 ==> p0 < self.tokens.cur(),
            decreases text.len() - self.tokens.cur(),
        {
            let ghost pre_pos = self.tokens.cur();
            let ghost pre_sol = self.tokens.sol();
            let ghost pre_nl = next_line;
            proof {
                lemma_step_advance(text, pre_pos, pre_sol, pre_nl);
            }
            match self.body_token(next_line) {
                None => {
                    proof {
                        lemma_collect_bounds(text, p0, sol0, false);
                        assert(spec_collect(text, pre_pos, pre_sol, pre_nl).0
                            =~= Seq::<Seq<char>>::empty());
                        assert(body.deep_view() + Seq::<Seq<char>>::empty() =~= body.deep_view());
                    }
                    break ;
                },
                Some((token_batch, is_newline)) => {
                    let ghost bdv = body.deep_view();
                    crate::chars::append_pieces(&mut body, &token_batch);
                    next_line = is_newline;
                    proof {
                        match spec_body_step(text, pre_pos, pre_sol, pre_nl) {
                            GStep::Piece { batch, pos: sp, sol: ss, nl: sn } => {
                                let rest = spec_collect(text, sp, ss, sn);
                                assert(spec_collect(text, pre_pos, pre_sol, pre_nl).0 == batch
                                    + rest.0);
                                assert(bdv + (batch + rest.0) =~= (bdv + batch) + rest.0);
                            },
                            GStep::Stop { .. } => {
                                assert(false);
                            },
                        }
                    }
                },
            }
        }
        let ghost raw = body.deep_view();
        proof {
            lemma_last_nonblank_range(raw);
        }
        trim_body(&mut body);
        body
    }

    /// A section body in sentence form: a period is appended when the last
    /// retained character is alphanumeric.
    pub fn block_body_paragraph(&mut self) -> (r: Vec<Vec<char>>)
        requires
            old(self).wf(),
        ensures
            final(self).wf(),
            final(self).tokens.stext() == old(self).tokens.stext(),
            final(self).acc() == old(self).acc(),
            ({
                let bb = spec_block_body(
                    old(self).tokens.stext(),
                    old(self).tokens.cur(),
                    old(self).tokens.sol(),
                );
                r.deep_view() == spec_paragraph_of(bb.0) && final(self).tokens.cur() == bb.1
                    && final(self).tokens.sol() == bb.2
            }),
            r.deep_view().len() > 0 ==> old(self).tokens.cur() < final(self).tokens.cur(),
    {
        let ghost text = self.tokens.stext();
        let ghost p0 = self.tokens.cur();
        let ghost sol0 = self.tokens.sol();
        let mut body = self.block_body();
        proof {
            lemma_trim_body_last(spec_collect(text, p0, sol0, false).0);
        }
        if body.len() > 0 {
            let m = body.len();
            let c = body[m - 1][body[m - 1].len() - 1];
            if char_is_alphanumeric(c) {
                let ghost bdv = body.deep_view();
                let mut dot: Vec<char> = Vec::new();
                dot.push('.');
                proof {
                    assert(dot@ =~= seq!['.']);
                }
                body.push(dot);
                proof {
                    assert(body.deep_view() =~= bdv.push(seq!['.']));
                }
            }
        }
        body
    }

    /// The `@code` handler: the body becomes a fenced code block tagged with
    /// the language, appended to the message list.
    pub fn code(&mut self, language: &[char])
        requires
            old(self).wf(),
        ensures
            final(self).wf(),
            final(self).tokens.stext() == old(self).tokens.stext(),
            ({
                let bb = spec_block_body(
                    old(self).tokens.stext(),
                    old(self).tokens.cur(),
                    old(self).tokens.sol(),
                );
                final(self).tokens.cur() == bb.1 && final(self).tokens.sol() == bb.2 && final(self).acc() == spec_handle(old(self).acc(), GCmd::Code { language: language@ }, bb.0)
            }),
    {
        let body = self.block_body();
        let mut fence = str_to_piece("```");
        piece_push_slice(&mut fence, language);
        piece_push_str(&mut fence, "\n");
        let joined = join_pieces(&body);
        piece_push_piece(&mut fence, &joined);
        piece_push_str(&mut fence, "\n```");
        let ghost before = self.acc();
        self.message.push(fence);
        proof {
            let bb = spec_block_body(
                old(self).tokens.stext(),
                old(self).tokens.cur(),
                old(self).tokens.sol(),
            );
            assert(self.acc() =~~= spec_handle(
                old(self).acc(),
                GCmd::Code { language: language@ },
                bb.0,
            ));
        }
    }

    /// The `@brief` handler: the paragraph body becomes the brief section,
    /// unless it is empty; an empty body never overwrites an earlier brief.
    pub fn brief(&mut self)
        requires
            old(self).wf(),
        ensures
            final(self).wf(),
            final(self).tokens.stext() == old(self).tokens.stext(),
            ({
                let bb = spec_block_body(
                    old(self).tokens.stext(),
                    old(self).tokens.cur(),
                    old(self).tokens.sol(),
                );
                final(self).tokens.cur() == bb.1 && final(self).tokens.sol() == bb.2 && final(self).acc() == spec_handle(old(self).acc(), GCmd::Brief, bb.0)
            }),
    {
        let body = self.block_body_paragraph();
        if body.len() > 0 {
            self.brief = Some(join_pieces(&body));
        }
        proof {
            let bb = spec_block_body(
                old(self).tokens.stext(),
                old(self).tokens.cur(),
                old(self).tokens.sol(),
            );
            assert(self.acc() =~~= spec_handle(old(self).acc(), GCmd::Brief, bb.0));
        }
    }

    /// The `@return` handler: the paragraph body, its first character forced
    /// to lower case, becomes the returns section when non-empty.
    pub fn returns_section(&mut self)
        requires
            old(self).wf(),
        ensures
            final(self).wf(),
            final(self).tokens.stext() == old(self).tokens.stext(),
            ({
                let bb = spec_block_body(
                    old(self).tokens.stext(),
                    old(self).tokens.cur(),
                    old(self).tokens.sol(),
                );
                final(self).tokens.cur() == bb.1 && final(self).tokens.sol() == bb.2 && final(self).acc() == spec_handle(old(self).acc(), GCmd::Returns, bb.0)
            }),
    {
        let mut body = self.block_body_paragraph();
        let ghost parag = body.deep_view();
        if body.len() > 0 {
            if body[0].len() > 0 {
                let c = body[0][0];
                if !char_is_lowercase(c) {
                    let mut first_word = char_to_lowercase(c);
                    piece_push_slice(
                        &mut first_word,
                        vstd::slice::slice_subrange(body[0].as_slice(), 1, body[0].len()),
                    );
                    let slot = vstd::std_specs::vec::vec_index_mut(&mut body, 0);
                    *slot = first_word;
                    proof {
                        assert(parag[0].subrange(1, parag[0].len() as int) =~= parag[
                        0].drop_first());
                        assert(body.deep_view() =~= force_first(parag, false));
                    }
                }
            }
            self.returns = Some(join_pieces(&body));
        }
        proof {
            let bb = spec_block_body(
                old(self).tokens.stext(),
                old(self).tokens.cur(),
                old(self).tokens.sol(),
            );
            assert(body.deep_view() =~= force_first(parag, false));
            assert(self.acc() =~~= spec_handle(old(self).acc(), GCmd::Returns, bb.0));
        }
    }

    /// The `@see`/`@sa` handler: the joined body is appended to the see-also
    /// list when non-empty.
    pub fn see_also(&mut self)
        requires
            old(self).wf(),
        ensures
            final(self).wf(),
            final(self).tokens.stext() == old(self).tokens.stext(),
            ({
                let bb = spec_block_body(
                    old(self).tokens.stext(),
                    old(self).tokens.cur(),
                    old(self).tokens.sol(),
                );
                final(self).tokens.cur() == bb.1 && final(self).tokens.sol() == bb.2 && final(self).acc() == spec_handle(old(self).acc(), GCmd::SeeAlso, bb.0)
            }),
    {
        let body = self.block_body();
        if body.len() > 0 {
            self.see_also.push(join_pieces(&body));
        }
        proof {
            let bb = spec_block_body(
                old(self).tokens.stext(),
                old(self).tokens.cur(),
                old(self).tokens.sol(),
            );
            assert(self.acc() =~~= spec_handle(old(self).acc(), GCmd::SeeAlso, bb.0));
        }
    }

    /// The `@deprecated` handler: the paragraph body becomes the deprecated
    /// section, unconditionally.
    pub fn deprecated(&mut self)
        requires
            old(self).wf(),
        ensures
            final(self).wf(),
            final(self).tokens.stext() == old(self).tokens.stext(),
            ({
                let bb = spec_block_body(
                    old(self).tokens.stext(),
                    old(self).tokens.cur(),
                    old(self).tokens.sol(),
                );
                final(self).tokens.cur() == bb.1 && final(self).tokens.sol() == bb.2 && final(self).acc() == spec_handle(old(self).acc(), GCmd::Deprecated, bb.0)
            }),
    {
        let body = self.block_body_paragraph();
        self.deprecated = Some(join_pieces(&body));
        proof {
            let bb = spec_block_body(
                old(self).tokens.stext(),
                old(self).tokens.cur(),
                old(self).tokens.sol(),
            );
            assert(self.acc() =~~= spec_handle(old(self).acc(), GCmd::Deprecated, bb.0));
        }
    }

    /// The `@note` handler: the paragraph body, its first character forced to
    /// upper case, is appended to the message list when non-empty.
    pub fn note(&mut self)
        requires
            old(self).wf(),
        ensures
            final(self).wf(),
            final(self).tokens.stext() == old(self).tokens.stext(),
            ({
                let bb = spec_block_body(
                    old(self).tokens.stext(),
                    old(self).tokens.cur(),
                    old(self).tokens.sol(),
                );
                final(self).tokens.cur() == bb.1 && final(self).tokens.sol() == bb.2 && final(self).acc() == spec_handle(old(self).acc(), GCmd::Plain, bb.0)
            }),
    {
        let mut body = self.block_body_paragraph();
        let ghost parag = body.deep_view();
        if body.len() > 0 {
            if body[0].len() > 0 {
                let c = body[0][0];
                if !char_is_uppercase(c) {
                    let mut first_word = char_to_uppercase(c);
                    piece_push_slice(
                        &mut first_word,
                        vstd::slice::slice_subrange(body[0].as_slice(), 1, body[0].len()),
                    );
                    let slot = vstd::std_specs::vec::vec_index_mut(&mut body, 0);
                    *slot = first_word;
                    proof {
                        assert(parag[0].subrange(1, parag[0].len() as int) =~= parag[
                        0].drop_first());
                        assert(body.deep_view() =~= force_first(parag, true));
                    }
                }
            }
            self.message.push(join_pieces(&body));
        }
        proof {
            let bb = spec_block_body(
                old(self).tokens.stext(),
                old(self).tokens.cur(),
                old(self).tokens.sol(),
            );
            assert(body.deep_view() =~= force_first(parag, true));
            assert(self.acc() =~~= spec_handle(old(self).acc(), GCmd::Plain, bb.0));
        }
    }

    /// The group-marker handler: the pending body is discarded and every
    /// accumulated section is cleared, so that nothing collected before the
    /// marker leaks into the final render.
    pub fn reset(&mut self)
        requires
            old(self).wf(),
        ensures
            final(self).wf(),
            final(self).tokens.stext() == old(self).tokens.stext(),
            ({
                let bb = spec_block_body(
                    old(self).tokens.stext(),
                    old(self).tokens.cur(),
                    old(self).tokens.sol(),
                );
                final(self).tokens.cur() == bb.1 && final(self).tokens.sol() == bb.2
            }),
            final(self).acc() == empty_acc(),
    {
        let _ = self.block_body();
        self.deprecated = None;
        self.brief = None;
        self.message = Vec::new();
        self.returns = None;
        self.see_also = Vec::new();
        proof {
            assert(self.acc() =~~= empty_acc());
        }
    }

    /// Classifies the next token; on a block command, consumes it, collects
    /// its body and runs its handler. Ordinary text consumes nothing.
    pub fn block(&mut self) -> (r: bool)
        requires
            old(self).wf(),
        ensures
            final(self).wf(),
            final(self).tokens.stext() == old(self).tokens.stext(),
            ({
                let text = old(self).tokens.stext();
                let p = old(self).tokens.cur();
                let sol = old(self).tokens.sol();
                if has_token(text, p, sol) && spec_block_type(
                    text,
                    next_start(text, p, sol),
                    token_end(text, next_start(text, p, sol)),
                ) is Some {
                    let s = next_start(text, p, sol);
                    let (cmd, cs, ce) = spec_block_type(text, s, token_end(text, s))->Some_0;
                    let bb = spec_block_body(text, ce, text[cs] == '\n');
                    r == true && final(self).tokens.cur() == bb.1 && final(self).tokens.sol()
                        == bb.2 && final(self).acc() == spec_handle(old(self).acc(), cmd, bb.0)
                } else {
                    r == false && final(self).tokens.cur() == p && final(self).tokens.sol() == sol
                        && final(self).acc() == old(self).acc()
                }
            }),
            r ==> old(self).tokens.cur() < final(self).tokens.cur(),
    {
        let ghost text = self.tokens.stext();
        let ghost p = self.tokens.cur();
        let ghost sol = self.tokens.sol();
        let tk = match self.tokens.peek() {
            None => {
                return false;
            },
            Some(t) => t,
        };
        let classified = match block_type(tk) {
            None => {
                return false;
            },
            Some(x) => x,
        };
        let (command, end_token) = classified;
        proof {
            let s = next_start(text, p, sol);
            lemma_token_end_bounds(text, s);
            lemma_block_type_bounds(text, s, token_end(text, s));
            let (cmd, cs, ce) = spec_block_type(text, s, token_end(text, s))->Some_0;
            lemma_collect_bounds(text, ce, text[cs] == '\n', false);
        }
        let _ = self.tokens.consume(end_token);
        match command {
            Command::Brief => self.brief(),
            Command::Code { language } => self.code(language),
            Command::Deprecated => self.deprecated(),
            Command::Invalidate => self.reset(),
            Command::Plain => self.note(),
            Command::Returns => self.returns_section(),
            Command::SeeAlso => self.see_also(),
            Command::Skip => {
                let _ = self.block_body();
            },
        }
        true
    }

    /// Drives the classify, collect, handle loop until the token stream holds
    /// no more text, then assembles the accumulated sections: absence when
    /// nothing was collected, the final Markdown string otherwise.
    #[verifier::rlimit(60)]
    pub fn render(self) -> (r: Option<String>)
        requires
            self.wf(),
        ensures
            ({
                let g = spec_assemble(
                    spec_process(
                        self.tokens.stext(),
                        self.tokens.cur(),
                        self.tokens.sol(),
                        self.acc(),
                    ),
                );
                match r {
                    Some(s) => g matches Some(gs) && s@ == gs,
                    None => g is None,
                }
            }),
    {
        let mut this = self;
        let ghost text = this.tokens.stext();
        let ghost p0 = this.tokens.cur();
        let ghost sol0 = this.tokens.sol();
        let ghost acc0 = this.acc();
        #[verifier::loop_isolation(true)]
        loop
            invariant_except_break
                spec_process(text, p0, sol0, acc0) == spec_process(
                    text,
                    this.tokens.cur(),
                    this.tokens.sol(),
                    this.acc(),
                ),
            invariant
                this.wf(),
                this.tokens.stext() == text,
            ensures
                this.wf(),
                this.tokens.stext() == text,
                this.acc() == spec_process(text, p0, sol0, acc0),
            decreases text.len() - this.tokens.cur(),
        {
            let ghost pre_pos = this.tokens.cur();
            let ghost pre_sol = this.tokens.sol();
            let ghost pre_acc = this.acc();
            if !this.block() {
                let body = this.block_body_paragraph();
                if body.len() == 0 {
                    if this.tokens.peek().is_none() {
                        break ;
                    }
                    proof {
                        let c = spec_collect(text, pre_pos, pre_sol, false);
                        lemma_collect_empty_stays(text, pre_pos, pre_sol);
                        if c.0.len() == 0 {
                            assert(!has_token(text, this.tokens.cur(), this.tokens.sol()));
                            assert(false);
                        }
                        lemma_collect_bounds(text, pre_pos, pre_sol, false);
                    }
                } else {
                    this.message.push(join_pieces(&body));
                    proof {
                        let bb = spec_block_body(text, pre_pos, pre_sol);
                        assert(this.acc() =~~= (GAcc {
                            message: pre_acc.message.push(join(spec_paragraph_of(bb.0))),
                            ..pre_acc
                        }));
                    }
                }
            }
        }
        this.assemble()
    }

    /// The deprecated line and the brief line, rendered.
    fn head_sections(&self) -> (out: Vec<String>)
        ensures
            strings_view(out@) == spec_head(self.acc()),
    {
        let mut out: Vec<String> = Vec::new();
        match &self.deprecated {
            Some(d) => {
                let mut s = String::new();
                s.append("**Deprecated: ");
                let ds = chars_to_string(d);
                s.append(ds.as_str());
                s.append("**");
                let ghost prev = out@;
                out.push(s);
                proof {
                    lemma_strings_view_push(prev, s);
                }
            },
            None => {},
        }
        let ghost out0 = strings_view(out@);
        proof {
            let acc = self.acc();
            assert(out0 =~= if acc.deprecated is Some {
                seq!["**Deprecated: "@ + acc.deprecated->Some_0 + "**"@]
            } else {
                Seq::<Seq<char>>::empty()
            });
        }
        match &self.brief {
            Some(b) => {
                let mut s = chars_to_string(b);
                s.append(".");
                let ghost prev = out@;
                out.push(s);
                proof {
                    lemma_strings_view_push(prev, s);
                }
            },
            None => {},
        }
        proof {
            assert(strings_view(out@) =~= spec_head(self.acc()));
        }
        out
    }

    /// Every rendered section, in order.
    #[verifier::rlimit(100)]
    #[verifier::spinoff_prover]
    fn sections(&self) -> (out: Vec<String>)
        ensures
            strings_view(out@) == spec_sections(self.acc()),
    {
        let mut out = self.head_sections();
        let ghost out1 = strings_view(out@);
        proof {
            assert forall|i: int| 0 <= i < self.message@.len() implies #[trigger] self.acc().message[i]
                == self.message@[i]@ by {
                crate::chars::lemma_piece_deep(self.message@[i]);
            }
            assert forall|i: int|
                0 <= i < self.see_also@.len() implies #[trigger] self.acc().see_also[i]
                == self.see_also@[i]@ by {
                crate::chars::lemma_piece_deep(self.see_also@[i]);
            }
        }
        let m = self.message.len();
        if m > 0 {
            let mut k: usize = 0;
            while k < m - 1
                invariant
                    0 <= k <= m - 1,
                    m == self.message@.len(),
                    strings_view(out@) == out1 + self.acc().message.subrange(0, k as int),
                decreases m - 1 - k,
            {
                let sm = chars_to_string(&self.message[k]);
                let ghost prev = out@;
                out.push(sm);
                k += 1;
                proof {
                    lemma_strings_view_push(prev, sm);
                    assert(strings_view(out@) =~= out1 + self.acc().message.subrange(0, k as int));
                }
            }
            let mut last_message = chars_to_string(&self.message[m - 1]);
            match &self.returns {
                Some(ret) => {
                    last_message.append(" Returns ");
                    let rs = chars_to_string(ret);
                    last_message.append(rs.as_str());
                },
                None => {},
            }
            let ghost prev = out@;
            out.push(last_message);
            proof {
                lemma_strings_view_push(prev, last_message);
            }
        } else {
            match &self.returns {
                Some(ret) => {
                    let mut s = String::new();
                    s.append("Returns ");
                    let rs = chars_to_string(ret);
                    s.append(rs.as_str());
                    let ghost prev = out@;
                    out.push(s);
                    proof {
                        lemma_strings_view_push(prev, s);
                    }
                },
                None => {},
            }
        }
        let ghost out2 = strings_view(out@);
        proof {
            let acc = self.acc();
            assert(out2 =~= ({
                if acc.message.len() > 0 {
                    if acc.returns is Some {
                        let m2 = out1 + acc.message;
                        m2.update(
                            m2.len() - 1,
                            acc.message.last() + " Returns "@ + acc.returns->Some_0,
                        )
                    } else {
                        out1 + acc.message
                    }
                } else {
                    if acc.returns is Some {
                        out1.push("Returns "@ + acc.returns->Some_0)
                    } else {
                        out1
                    }
                }
            }));
        }
        let na = self.see_also.len();
        if na > 0 {
            let mut s = String::new();
            s.append("See also ");
            let mut k: usize = 0;
            while k < na
                invariant
                    0 <= k <= na,
                    na == self.see_also@.len(),
                    k == 0 ==> s@ == "See also "@,
                    k > 0 ==> s@ == "See also "@ + join_sep(
                        self.acc().see_also.subrange(0, k as int),
                        ", "@,
                    ),
                decreases na - k,
            {
                if k > 0 {
                    s.append(", ");
                }
                let cs = chars_to_string(&self.see_also[k]);
                s.append(cs.as_str());
                k += 1;
                proof {
                    let also = self.acc().see_also;
                    if k > 1 {
                        assert(also.subrange(0, k as int).drop_last() =~= also.subrange(
                            0,
                            k - 1,
                        ));
                        assert(also.subrange(0, k as int).len() > 1);
                    }
                }
            }
            proof {
                assert(self.acc().see_also.subrange(0, na as int) =~= self.acc().see_also);
            }
            s.append(".");
            let ghost prev = out@;
            out.push(s);
            proof {
                lemma_strings_view_push(prev, s);
            }
        }
        proof {
            assert(strings_view(out@) =~= spec_sections(self.acc()));
        }
        out
    }

    /// Assembles the accumulated sections into the final string, joined by
    /// blank lines; absence when every section is empty.
    fn assemble(self) -> (r: Option<String>)
        ensures
            ({
                let g = spec_assemble(self.acc());
                match r {
                    Some(s) => g matches Some(gs) && s@ == gs,
                    None => g is None,
                }
            }),
    {
        let out = self.sections();
        let ghost out3 = strings_view(out@);
        let total = out.len();
        if total == 0 {
            return None;
        }
        let mut s = out[0].clone();
        let mut k: usize = 1;
        while k < total
            invariant
                1 <= k <= total,
                total == out@.len(),
                out3 == strings_view(out@),
                s@ == join_sep(out3.subrange(0, k as int), "\n\n"@),
            decreases total - k,
        {
            s.append("\n\n");
            s.append(out[k].as_str());
            k += 1;
            proof {
                assert(out3.subrange(0, k as int).drop_last() =~= out3.subrange(0, k - 1));
                assert(out3.subrange(0, k as int).len() > 1);
            }
        }
        proof {
            assert(out3.subrange(0, total as int) =~= out3);
        }
        Some(s)
    }
}

/// The views of a list of rendered section strings.
pub open spec fn strings_view(ss: Seq<String>) -> Seq<Seq<char>> {
    Seq::new(ss.len(), |i: int| ss[i]@)
}

/// Appending a string appends its view.
pub proof fn lemma_strings_view_push(prev: Seq<String>, s: String)
    ensures
        strings_view(prev.push(s)) == strings_view(prev).push(s@),
{
    let lhs = strings_view(prev.push(s));
    let rhs = strings_view(prev).push(s@);
    assert forall|i: int| 0 <= i < lhs.len() implies lhs[i] == rhs[i] by {
        if i < prev.len() {
            vstd::seq::lemma_seq_push_index_different_alt(prev, s, i);
        }
    }
    assert(lhs =~= rhs);
}

/// Trims a collected body in place: trailing all-whitespace pieces dropped,
/// leading whitespace off the first piece, trailing whitespace off the last.
fn trim_body(body: &mut Vec<Vec<char>>)
    ensures
        final(body).deep_view() == spec_trim_body(old(body).deep_view()),
{
    let ghost ps = old(body).deep_view();
    let n = body.len();
    let mut l: usize = n;
    proof {
        assert(ps.len() == n);
    }
    while l > 0 && piece_is_blank(&body[l - 1])
        invariant
            0 <= l <= n,
            n == body@.len(),
            n == ps.len(),
            *body == *old(body),
            ps == body.deep_view(),
            forall|j: int| l <= j < n ==> all_blank(#[trigger] ps[j]),
        decreases l,
    {
        proof {
            assert(ps[l - 1] == body@[l - 1]@);
        }
        l -= 1;
    }
    proof {
        if l > 0 {
            assert(ps[l - 1] == body@[l - 1]@);
        }
    }
    proof {
        lemma_last_nonblank_at(ps, l as int);
    }
    if l == 0 {
        body.clear();
        proof {
            assert(body.deep_view() =~~= spec_trim_body(ps));
        }
        return ;
    }
    let last = l - 1;
    body.truncate(last + 1);
    let first_trimmed = trim_start_piece(&body[0]);
    let slot0 = vstd::std_specs::vec::vec_index_mut(body, 0);
    *slot0 = first_trimmed;
    let last_trimmed = trim_end_piece(&body[last]);
    let slot_last = vstd::std_specs::vec::vec_index_mut(body, last);
    *slot_last = last_trimmed;
    proof {
        assert(body.deep_view() =~~= spec_trim_body(ps));
    }
}

} // verus!
