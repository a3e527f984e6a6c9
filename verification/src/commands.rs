//! The command classifier: decides whether a token begins a recognized block
//! command or inline command, or is ordinary text.

use vstd::prelude::*;
use vstd::slice::slice_subrange;
use vstd::string::StrSliceExecFns;
use crate::chars::{str_to_piece, trim_start_chars, piece_take, trim_start_piece,
    lemma_trim_start_suffix};
use crate::tokens::{Token, at_pos, placed, g_has_next, g_next_s, g_next_e};

verus! {

/// Classification of a block command token.
pub enum Command<'a> {
    Brief,
    Code { language: &'a [char] },
    Deprecated,
    Invalidate,
    Plain,
    Returns,
    SeeAlso,
    Skip,
}

/// The ghost counterpart of `Command`, over character sequences.
pub enum GCmd {
    Brief,
    Code { language: Seq<char> },
    Deprecated,
    Invalidate,
    Plain,
    Returns,
    SeeAlso,
    Skip,
}

impl<'a> Command<'a> {
    pub open spec fn gview(self) -> GCmd {
        match self {
            Command::Brief => GCmd::Brief,
            Command::Code { language } => GCmd::Code { language: language@ },
            Command::Deprecated => GCmd::Deprecated,
            Command::Invalidate => GCmd::Invalidate,
            Command::Plain => GCmd::Plain,
            Command::Returns => GCmd::Returns,
            Command::SeeAlso => GCmd::SeeAlso,
            Command::Skip => GCmd::Skip,
        }
    }
}

/// Whether the token's characters after the leading command character equal
/// the keyword.
fn suffix_is(t: &Token, kw: &str) -> (r: bool)
    requires
        t.wf(),
    ensures
        r == (t.val().subrange(1, t.val().len() as int) == kw@),
{
    let n = kw.unicode_len();
    let tlen = t.len();
    if tlen - 1 != n {
        proof {
            assert(t.val().subrange(1, t.val().len() as int).len() != kw@.len());
        }
        return false;
    }
    let mut i: usize = 0;
    while i < n
        invariant
            0 <= i <= n,
            n == kw@.len(),
            t.wf(),
            t.val().len() == n + 1,
            forall|j: int| 0 <= j < i ==> t.val()[j + 1] == kw@[j],
        decreases n - i,
    {
        if t.char_at(i + 1) != kw.get_char(i) {
            proof {
                assert(t.val().subrange(1, t.val().len() as int)[i as int] != kw@[i as int]);
            }
            return false;
        }
        i += 1;
    }
    proof {
        assert(t.val().subrange(1, t.val().len() as int) =~= kw@);
    }
    true
}

/// Whether the token's characters equal the keyword.
fn val_is(t: &Token, kw: &str) -> (r: bool)
    requires
        t.wf(),
    ensures
        r == (t.val() == kw@),
{
    let n = kw.unicode_len();
    if t.len() != n {
        return false;
    }
    let mut i: usize = 0;
    while i < n
        invariant
            0 <= i <= n,
            n == kw@.len(),
            t.wf(),
            t.val().len() == n,
            forall|j: int| 0 <= j < i ==> t.val()[j] == kw@[j],
        decreases n - i,
    {
        if t.char_at(i) != kw.get_char(i) {
            return false;
        }
        i += 1;
    }
    proof {
        assert(t.val() =~= kw@);
    }
    true
}

/// The `@code` language shape: a `{` token, a `.ext` token, a `}` token. On
/// that shape, the language (the extension without its dot) and where the
/// closing token lies; otherwise nothing.
pub open spec fn spec_code_language(text: Seq<char>, s: int, e: int) -> Option<
    (Seq<char>, int, int),
> {
    if text.subrange(s, e) == "{"@ && g_has_next(text, s, e) {
        let es = g_next_s(text, s, e);
        let ee = g_next_e(text, s, e);
        let v = text.subrange(es, ee);
        if v.len() >= 1 && v[0] == '.' {
            if g_has_next(text, es, ee) {
                let cs = g_next_s(text, es, ee);
                let ce = g_next_e(text, es, ee);
                if text.subrange(cs, ce) == "}"@ {
                    Some((v.subrange(1, v.len() as int), cs, ce))
                } else {
                    None
                }
            } else {
                None
            }
        } else {
            None
        }
    } else {
        None
    }
}

/// Reads the `{`, `.ext`, `}` shape after `@code` by lookahead; on a match,
/// the language and the closing token, which the caller consumes.
pub fn code_language<'a>(opening_token: Token<'a>) -> (r: Option<(&'a [char], Token<'a>)>)
    requires
        placed(opening_token),
    ensures
        ({
            let text = opening_token.future_tokens.stext();
            let s = opening_token.start as int;
            let e = opening_token.future_tokens.cur();
            match spec_code_language(text, s, e) {
                Some((lang, cs, ce)) => r matches Some((l, tk)) && l@ == lang && at_pos(
                    tk,
                    text,
                    cs,
                    ce,
                ),
                None => r is None,
            }
        }),
{
    if !val_is(&opening_token, "{") {
        return None;
    }
    let extension_token = match opening_token.peek() {
        None => {
            return None;
        },
        Some(t) => t,
    };
    if !(extension_token.len() >= 1 && extension_token.char_at(0) == '.') {
        return None;
    }
    let closing_token = match extension_token.peek() {
        None => {
            return None;
        },
        Some(t) => t,
    };
    if !val_is(&closing_token, "}") {
        return None;
    }
    let language = slice_subrange(
        extension_token.future_tokens.text,
        extension_token.start + 1,
        extension_token.future_tokens.pos,
    );
    proof {
        let text = opening_token.future_tokens.stext();
        let es = extension_token.start as int;
        let ee = extension_token.future_tokens.cur();
        assert(language@ =~= text.subrange(es, ee).subrange(
            1,
            text.subrange(es, ee).len() as int,
        ));
    }
    Some((language, closing_token))
}

/// The block-command classification of one token, and where the classified
/// command's last token lies. A token that is no recognized block command
/// classifies to nothing and stays ordinary text.
pub open spec fn spec_block_type(text: Seq<char>, s: int, e: int) -> Option<(GCmd, int, int)> {
    let v = text.subrange(s, e);
    if v.len() >= 1 && (v[0] == '@' || v[0] == '\\') {
        let rest = v.subrange(1, v.len() as int);
        if rest == "brief"@ {
            Some((GCmd::Brief, s, e))
        } else if rest == "code"@ {
            if g_has_next(text, s, e) {
                match spec_code_language(text, g_next_s(text, s, e), g_next_e(text, s, e)) {
                    Some((language, cs, ce)) => Some((GCmd::Code { language }, cs, ce)),
                    None => None,
                }
            } else {
                None
            }
        } else if rest == "deprecated"@ {
            Some((GCmd::Deprecated, s, e))
        } else if rest.len() == 0 {
            if g_has_next(text, s, e) && text.subrange(g_next_s(text, s, e), g_next_e(text, s, e))
                == "{"@ {
                Some((GCmd::Invalidate, g_next_s(text, s, e), g_next_e(text, s, e)))
            } else {
                None
            }
        } else if rest == "note"@ {
            Some((GCmd::Plain, s, e))
        } else if rest == "return"@ {
            Some((GCmd::Returns, s, e))
        } else if rest == "see"@ || rest == "sa"@ {
            Some((GCmd::SeeAlso, s, e))
        } else if rest == "param"@ || rest == "endcode"@ || rest == "addtogroup"@ || rest
            == "internal"@ {
            Some((GCmd::Skip, s, e))
        } else {
            None
        }
    } else {
        None
    }
}

/// Classifies a token as a block command. On a match, the command and its
/// last token, which the caller consumes to commit the whole command.
pub fn block_type<'a>(command_token: Token<'a>) -> (r: Option<(Command<'a>, Token<'a>)>)
    requires
        placed(command_token),
    ensures
        ({
            let text = command_token.future_tokens.stext();
            let s = command_token.start as int;
            let e = command_token.future_tokens.cur();
            match spec_block_type(text, s, e) {
                Some((gcmd, cs, ce)) => r matches Some((cmd, tk)) && cmd.gview() == gcmd && at_pos(
                    tk,
                    text,
                    cs,
                    ce,
                ),
                None => r is None,
            }
        }),
{
    let c0 = command_token.char_at(0);
    if c0 != '@' && c0 != '\\' {
        return None;
    }
    if suffix_is(&command_token, "brief") {
        return Some((Command::Brief, command_token));
    }
    if suffix_is(&command_token, "code") {
        let opening = match command_token.peek() {
            None => {
                return None;
            },
            Some(t) => t,
        };
        return match code_language(opening) {
            Some((language, end_token)) => Some((Command::Code { language }, end_token)),
            None => None,
        };
    }
    if suffix_is(&command_token, "deprecated") {
        return Some((Command::Deprecated, command_token));
    }
    if command_token.len() == 1 {
        let new_block = match command_token.peek() {
            None => {
                return None;
            },
            Some(t) => t,
        };
        if val_is(&new_block, "{") {
            return Some((Command::Invalidate, new_block));
        }
        return None;
    }
    if suffix_is(&command_token, "note") {
        return Some((Command::Plain, command_token));
    }
    if suffix_is(&command_token, "return") {
        return Some((Command::Returns, command_token));
    }
    if suffix_is(&command_token, "see") || suffix_is(&command_token, "sa") {
        return Some((Command::SeeAlso, command_token));
    }
    if suffix_is(&command_token, "param") || suffix_is(&command_token, "endcode") || suffix_is(
        &command_token,
        "addtogroup",
    ) || suffix_is(&command_token, "internal") {
        return Some((Command::Skip, command_token));
    }
    None
}

/// The inline-command substitution for one token: on `\a`, `\b` or `\ref`
/// followed by an argument token, the four replacement pieces (the argument's
/// leading whitespace, the opening marker, the stripped argument, the closing
/// marker) and where the argument token lies.
pub open spec fn spec_inline(text: Seq<char>, s: int, e: int) -> Option<
    (Seq<Seq<char>>, int, int),
> {
    let v = text.subrange(s, e);
    let marks: Option<(Seq<char>, Seq<char>)> = if v == "\\a"@ {
        Some(("_"@, "_"@))
    } else if v == "\\b"@ {
        Some(("**"@, "**"@))
    } else if v == "\\ref"@ {
        Some(("[`"@, "`]"@))
    } else {
        None
    };
    match marks {
        None => None,
        Some((left, right)) => {
            if g_has_next(text, s, e) {
                let as_ = g_next_s(text, s, e);
                let ae = g_next_e(text, s, e);
                let av = text.subrange(as_, ae);
                let arg = trim_start_chars(av);
                let ws = av.subrange(0, av.len() - arg.len());
                Some((seq![ws, left, arg, right], as_, ae))
            } else {
                None
            }
        },
    }
}

/// Substitutes an inline command by lookahead; on a match, the replacement
/// pieces and the argument token, which the caller consumes.
pub fn inline_command<'a>(command_token: Token<'a>) -> (r: Option<(Vec<Vec<char>>, Token<'a>)>)
    requires
        placed(command_token),
    ensures
        ({
            let text = command_token.future_tokens.stext();
            let s = command_token.start as int;
            let e = command_token.future_tokens.cur();
            match spec_inline(text, s, e) {
                Some((batch, as_, ae)) => r matches Some((b, tk)) && b.deep_view() == batch
                    && at_pos(tk, text, as_, ae),
                None => r is None,
            }
        }),
{
    let (left, right): (&str, &str) = if val_is(&command_token, "\\a") {
        ("_", "_")
    } else if val_is(&command_token, "\\b") {
        ("**", "**")
    } else if val_is(&command_token, "\\ref") {
        ("[`", "`]")
    } else {
        return None;
    };
    let arg_token = match command_token.peek() {
        None => {
            return None;
        },
        Some(t) => t,
    };
    let arg_piece = arg_token.to_piece();
    let arg = trim_start_piece(&arg_piece);
    proof {
        lemma_trim_start_suffix(arg_piece@);
    }
    let whitespace = piece_take(&arg_piece, arg_piece.len() - arg.len());
    let mut batch: Vec<Vec<char>> = Vec::new();
    batch.push(whitespace);
    batch.push(str_to_piece(left));
    batch.push(arg);
    batch.push(str_to_piece(right));
    proof {
        let text = command_token.future_tokens.stext();
        let s = command_token.start as int;
        let e = command_token.future_tokens.cur();
        let gb = spec_inline(text, s, e)->Some_0.0;
        assert(batch.deep_view() =~~= gb);
    }
    Some((batch, arg_token))
}

} // verus!
