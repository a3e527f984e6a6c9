//! Laws of the translator, stated over the ghost model and proved once for
//! all inputs.

use vstd::prelude::*;
use crate::chars::{is_uws, is_merge_ws, is_word_char, is_alnum_char, all_blank, trim_start_chars,
    trim_end_chars, join, lemma_trim_end_nonblank};
use crate::tokens::{has_token, next_start, token_end, tok_val, sol_after, strip_pos, scan_ws,
    lemma_token_end_bounds};
use crate::doc::{GStep, GAcc, spec_body_step, spec_collect, spec_trim_body, spec_block_body,
    spec_handle, spec_paragraph_of,
    spec_process, spec_assemble, join_sep, last_nonblank, empty_acc, doc_spec, lemma_step_advance,
    lemma_last_nonblank_at, lemma_last_nonblank_range, lemma_trim_body_last};
use crate::commands::spec_block_type;

verus! {

/// Every piece that body collection gathers from an all-whitespace text is
/// itself all whitespace.
proof fn lemma_collect_blank(text: Seq<char>, pos: int, sol: bool, nl: bool)
    requires
        forall|i: int| 0 <= i < text.len() ==> is_uws(#[trigger] text[i]),
    ensures
        forall|j: int|
            0 <= j < spec_collect(text, pos, sol, nl).0.len() ==> all_blank(
                #[trigger] spec_collect(text, pos, sol, nl).0[j],
            ),
    decreases text.len() - pos,
{
    lemma_step_advance(text, pos, sol, nl);
    match spec_body_step(text, pos, sol, nl) {
        GStep::Stop { .. } => {},
        GStep::Piece { batch, pos: p2, sol: s2, nl: n2 } => {
            let s = next_start(text, pos, sol);
            lemma_token_end_bounds(text, s);
            let e = token_end(text, s);
            let v = text.subrange(s, e);
            assert(is_uws(v[0]));
            assert(forall|i: int| 0 <= i < v.len() ==> is_uws(#[trigger] v[i]));
            lemma_collect_blank(text, p2, s2, n2);
            assert forall|j: int|
                0 <= j < spec_collect(text, pos, sol, nl).0.len() implies all_blank(
                #[trigger] spec_collect(text, pos, sol, nl).0[j],
            ) by {
                if j > 0 {
                    assert(spec_collect(text, pos, sol, nl).0[j] == spec_collect(
                        text,
                        p2,
                        s2,
                        n2,
                    ).0[j - 1]);
                }
            }
        },
    }
}

/// On an all-whitespace text the processing loop only consumes: every
/// paragraph trims to nothing, so the accumulator never changes.
proof fn lemma_process_blank(text: Seq<char>, pos: int, sol: bool, acc: GAcc)
    requires
        forall|i: int| 0 <= i < text.len() ==> is_uws(#[trigger] text[i]),
        0 <= pos,
    ensures
        spec_process(text, pos, sol, acc) == acc,
    decreases text.len() - pos,
{
    if has_token(text, pos, sol) {
        let s = next_start(text, pos, sol);
        lemma_token_end_bounds(text, s);
        assert(is_uws(text[s]));
        assert(text.subrange(s, token_end(text, s))[0] == text[s]);
    }
    lemma_collect_blank(text, pos, sol, false);
    let c = spec_collect(text, pos, sol, false);
    lemma_last_nonblank_at(c.0, 0);
    if has_token(text, c.1, c.2) {
        crate::doc::lemma_collect_empty_stays(text, pos, sol);
        if c.0.len() == 0 {
            assert(!has_token(text, c.1, c.2));
            assert(false);
        }
        crate::doc::lemma_collect_bounds(text, pos, sol, false);
        lemma_process_blank(text, c.1, c.2, acc);
    }
}

/// Law: a comment of nothing but whitespace and newlines, with no commands,
/// renders to absence, not to an empty string.
pub proof fn lemma_whitespace_only_is_absent(input: Seq<char>)
    requires
        forall|i: int| 0 <= i < input.len() ==> is_uws(#[trigger] input[i]),
    ensures
        doc_spec(input) is None,
{
    lemma_process_blank(input, 0, true, empty_acc());
}

/// A character that can begin no recognized command and no line marker.
pub open spec fn plain_char(c: char) -> bool {
    c != '@' && c != '\\' && c != '!' && c != '<'
}

/// On text free of command and marker characters and of blank lines, body
/// collection consumes everything, and the consumed pieces concatenate back
/// to exactly the unconsumed input: no characters are dropped silently.
proof fn lemma_collect_plain(text: Seq<char>, pos: int, sol: bool, nl: bool)
    requires
        forall|i: int| 0 <= i < text.len() ==> plain_char(#[trigger] text[i]),
        forall|i: int|
            0 <= i < text.len() - 1 ==> !((#[trigger] text[i]) == '\n' && text[i + 1] == '\n'),
        0 <= pos <= text.len(),
        nl ==> 0 < pos && text[pos - 1] == '\n',
    ensures
        spec_collect(text, pos, sol, nl).1 == text.len(),
        join(spec_collect(text, pos, sol, nl).0) == text.subrange(pos, text.len() as int),
        forall|j: int|
            0 <= j < spec_collect(text, pos, sol, nl).0.len() ==> (#[trigger] spec_collect(
                text,
                pos,
                sol,
                nl,
            ).0[j]).len() > 0,
        pos < text.len() ==> spec_collect(text, pos, sol, nl).0.len() > 0 && spec_collect(
            text,
            pos,
            sol,
            nl,
        ).0[0] == text.subrange(pos, token_end(text, pos)),
    decreases text.len() - pos,
{
    let c = spec_collect(text, pos, sol, nl);
    assert(next_start(text, pos, sol) == pos);
    if pos == text.len() {
        assert(c.0 =~= Seq::<Seq<char>>::empty());
        assert(join(c.0) =~= text.subrange(pos, text.len() as int));
    } else {
        lemma_token_end_bounds(text, pos);
        let e = token_end(text, pos);
        let v = text.subrange(pos, e);
        assert(v[0] == text[pos]);
        assert(plain_char(v[0]));
        if v[0] == '\n' && nl {
            assert(false);
        }
        assert(spec_body_step(text, pos, sol, nl) == (GStep::Piece {
            batch: seq![v],
            pos: e,
            sol: text[pos] == '\n',
            nl: v[0] == '\n',
        }));
        lemma_collect_plain(text, e, text[pos] == '\n', v[0] == '\n');
        let rest = spec_collect(text, e, text[pos] == '\n', v[0] == '\n');
        crate::chars::lemma_join_singleton(v);
        crate::chars::lemma_join_concat(seq![v], rest.0);
        assert(c.0 == seq![v] + rest.0);
        assert(v + text.subrange(e, text.len() as int) =~= text.subrange(pos, text.len() as int));
        assert forall|j: int| 0 <= j < c.0.len() implies (#[trigger] c.0[j]).len() > 0 by {
            if j > 0 {
                assert(c.0[j] == rest.0[j - 1]);
            }
        }
        assert(c.0[0] == v);
    }
}

/// Trimming a collected body piece by piece agrees with trimming its joined
/// text from the back, when the first piece starts with non-whitespace.
proof fn lemma_trim_body_join(ps: Seq<Seq<char>>)
    requires
        ps.len() > 0,
        forall|j: int| 0 <= j < ps.len() ==> (#[trigger] ps[j]).len() > 0,
        !is_uws(ps[0][0]),
    ensures
        spec_trim_body(ps).len() > 0,
        join(spec_trim_body(ps)) == trim_end_chars(join(ps)),
{
    lemma_last_nonblank_range(ps);
    let l = last_nonblank(ps);
    assert(!all_blank(ps[0])) by {
        assert(!is_uws(ps[0][0]));
    }
    assert(l >= 0);
    let front = ps.subrange(0, l);
    let lastp = ps[l];
    let back = ps.subrange(l + 1, ps.len() as int);
    assert(ps =~= (front + seq![lastp]) + back);
    crate::chars::lemma_join_concat(front + seq![lastp], back);
    crate::chars::lemma_join_concat(front, seq![lastp]);
    crate::chars::lemma_join_singleton(lastp);
    assert(forall|j: int| 0 <= j < back.len() ==> all_blank(#[trigger] back[j]));
    crate::chars::lemma_join_all_blank(back);
    crate::chars::lemma_trim_end_concat_blank(join(front) + lastp, join(back));
    crate::chars::lemma_trim_end_concat_keep(join(front), lastp);
    assert(trim_end_chars(join(ps)) == join(front) + trim_end_chars(lastp));
    assert(trim_start_chars(ps[0]) == ps[0]);
    if l == 0 {
        crate::chars::lemma_join_singleton(trim_end_chars(trim_start_chars(ps[0])));
        assert(front.len() == 0);
        assert(join(front) =~= Seq::<char>::empty());
        assert(join(front) + trim_end_chars(lastp) =~= trim_end_chars(lastp));
    } else {
        assert(seq![trim_start_chars(ps[0])] + ps.subrange(1, l) =~= front);
        crate::chars::lemma_join_concat(
            seq![trim_start_chars(ps[0])] + ps.subrange(1, l),
            seq![trim_end_chars(lastp)],
        );
        crate::chars::lemma_join_singleton(trim_end_chars(lastp));
        assert(spec_trim_body(ps) =~= (seq![trim_start_chars(ps[0])] + ps.subrange(1, l)) + seq![
            trim_end_chars(lastp),
        ]);
    }
}

/// Law: a comment holding no command or marker character, no blank line, and
/// no leading whitespace renders to itself, trimmed at the end, with a period
/// appended exactly when the trimmed text ends in a character that counts as
/// alphanumeric. With no recognized command and no marker to strip, the
/// translator passes text through.
pub proof fn lemma_plain_text_passthrough(input: Seq<char>)
    requires
        input.len() > 0,
        !is_uws(input[0]),
        forall|i: int| 0 <= i < input.len() ==> plain_char(#[trigger] input[i]),
        forall|i: int|
            0 <= i < input.len() - 1 ==> !((#[trigger] input[i]) == '\n' && input[i + 1] == '\n'),
    ensures
        ({
            let t = trim_end_chars(input);
            doc_spec(input) == Some(
                if is_alnum_char(t[t.len() - 1]) {
                    t.push('.')
                } else {
                    t
                },
            )
        }),
{
    let n = input.len() as int;
    lemma_collect_plain(input, 0, true, false);
    let c = spec_collect(input, 0, true, false);
    lemma_token_end_bounds(input, 0);
    assert(next_start(input, 0, true) == 0);
    assert(input.subrange(0, token_end(input, 0))[0] == input[0]);
    assert(spec_block_type(input, 0, token_end(input, 0)) is None);
    lemma_trim_body_join(c.0);
    let bb0 = spec_trim_body(c.0);
    let t = trim_end_chars(input);
    assert(input.subrange(0, n) =~= input);
    assert(join(c.0) == input);
    assert(join(bb0) == t);
    assert(!all_blank(input)) by {
        assert(!is_uws(input[0]));
    }
    lemma_trim_end_nonblank(input);
    lemma_trim_body_last(c.0);
    crate::chars::lemma_join_last(bb0);
    assert(bb0.last()[bb0.last().len() - 1] == t[t.len() - 1]);
    let m: Seq<char> = if is_alnum_char(t[t.len() - 1]) {
        assert(bb0.push(seq!['.']).drop_last() =~= bb0);
        assert(join(bb0.push(seq!['.'])) == t + seq!['.']);
        assert(t + seq!['.'] =~= t.push('.'));
        t.push('.')
    } else {
        t
    };
    assert(join(spec_paragraph_of(bb0)) == m);
    let acc1 = GAcc { message: seq![m], ..empty_acc() };
    assert(spec_process(input, 0, true, empty_acc()) == spec_process(input, n, c.2, acc1));
    assert(!has_token(input, n, c.2));
    assert(spec_body_step(input, n, c.2, false) == (GStep::Stop { pos: n, sol: c.2 }));
    assert(spec_collect(input, n, c.2, false).0 =~= Seq::<Seq<char>>::empty());
    assert(last_nonblank(Seq::<Seq<char>>::empty()) == -1);
    assert(spec_trim_body(spec_collect(input, n, c.2, false).0).len() == 0);
    assert(spec_process(input, n, c.2, acc1) == acc1);
    assert(join_sep(seq![m], "\n\n"@) == m);
    assert(spec_assemble(acc1) == Some(m));
}

/// Whether the processing loop, run from cursor (`pos`, `sol`), will reach a
/// group marker: a token that classifies as `Invalidate`.
pub open spec fn resets_ahead(text: Seq<char>, pos: int, sol: bool) -> bool
    decreases text.len() - pos,
        via resets_ahead_dec
{
    if 0 <= pos && has_token(text, pos, sol) && spec_block_type(
        text,
        next_start(text, pos, sol),
        token_end(text, next_start(text, pos, sol)),
    ) is Some {
        let s = next_start(text, pos, sol);
        let (cmd, cs, ce) = spec_block_type(text, s, token_end(text, s))->Some_0;
        let bb = spec_block_body(text, ce, text[cs] == '\n');
        cmd is Invalidate || resets_ahead(text, bb.1, bb.2)
    } else {
        let bb = spec_block_body(text, pos, sol);
        if bb.0.len() == 0 {
            if 0 <= pos && has_token(text, bb.1, bb.2) {
                resets_ahead(text, bb.1, bb.2)
            } else {
                false
            }
        } else {
            resets_ahead(text, bb.1, bb.2)
        }
    }
}

#[via_fn]
proof fn resets_ahead_dec(text: Seq<char>, pos: int, sol: bool) {
    crate::doc::lemma_process_step_bounds(text, pos, sol);
}

/// Law: once a group marker lies ahead in the stream, the render's outcome is
/// independent of every section accumulated so far — nothing collected before
/// `@{` leaks across it; the result is determined solely by what follows.
pub proof fn lemma_group_marker_forgets(
    text: Seq<char>,
    pos: int,
    sol: bool,
    acc1: GAcc,
    acc2: GAcc,
)
    requires
        resets_ahead(text, pos, sol),
    ensures
        spec_process(text, pos, sol, acc1) == spec_process(text, pos, sol, acc2),
    decreases text.len() - pos,
{
    crate::doc::lemma_process_step_bounds(text, pos, sol);
    if 0 <= pos && has_token(text, pos, sol) && spec_block_type(
        text,
        next_start(text, pos, sol),
        token_end(text, next_start(text, pos, sol)),
    ) is Some {
        let s = next_start(text, pos, sol);
        let (cmd, cs, ce) = spec_block_type(text, s, token_end(text, s))->Some_0;
        let bb = spec_block_body(text, ce, text[cs] == '\n');
        if cmd is Invalidate {
            assert(spec_handle(acc1, cmd, bb.0) == empty_acc());
            assert(spec_handle(acc2, cmd, bb.0) == empty_acc());
        } else {
            lemma_group_marker_forgets(
                text,
                bb.1,
                bb.2,
                spec_handle(acc1, cmd, bb.0),
                spec_handle(acc2, cmd, bb.0),
            );
        }
    } else {
        let bb = spec_block_body(text, pos, sol);
        if bb.0.len() == 0 {
            if 0 <= pos && has_token(text, bb.1, bb.2) {
                lemma_group_marker_forgets(text, bb.1, bb.2, acc1, acc2);
            } else {
                assert(!resets_ahead(text, pos, sol));
            }
        } else {
            lemma_group_marker_forgets(
                text,
                bb.1,
                bb.2,
                GAcc { message: acc1.message.push(join(spec_paragraph_of(bb.0))), ..acc1 },
                GAcc { message: acc2.message.push(join(spec_paragraph_of(bb.0))), ..acc2 },
            );
        }
    }
}


/// The concatenation of every token the tokenizer yields from a cursor.
pub open spec fn tokens_concat(text: Seq<char>, pos: int, sol: bool) -> Seq<char>
    decreases text.len() - pos,
        via tokens_concat_dec
{
    if 0 <= pos && has_token(text, pos, sol) {
        tok_val(text, pos, sol) + tokens_concat(
            text,
            token_end(text, next_start(text, pos, sol)),
            sol_after(text, pos, sol),
        )
    } else {
        Seq::empty()
    }
}

#[via_fn]
proof fn tokens_concat_dec(text: Seq<char>, pos: int, sol: bool) {
    if 0 <= pos && has_token(text, pos, sol) {
        lemma_token_end_bounds(text, next_start(text, pos, sol));
    }
}

/// The input from `pos` on, with the line-leading markers deleted: at each
/// start of a line the optional `!`, the optional `<` and their one following
/// space are dropped; every other character is kept.
pub open spec fn drop_markers(text: Seq<char>, pos: int, sol: bool) -> Seq<char>
    decreases text.len() - pos, (if sol { 1int } else { 0int }),
{
    if !(0 <= pos && pos < text.len()) {
        Seq::empty()
    } else if sol {
        drop_markers(text, strip_pos(text, pos), false)
    } else {
        seq![text[pos]] + drop_markers(text, pos + 1, text[pos] == '\n')
    }
}

/// A run of characters holding no newline passes through `drop_markers`
/// unchanged: no line starts inside it.
proof fn lemma_drop_plain(text: Seq<char>, i: int, e: int)
    requires
        0 <= i <= e <= text.len(),
        forall|j: int| i <= j < e ==> (#[trigger] text[j]) != '\n',
    ensures
        drop_markers(text, i, false) == text.subrange(i, e) + drop_markers(text, e, false),
    decreases e - i,
{
    if i == e {
        assert(text.subrange(i, e) + drop_markers(text, e, false) =~= drop_markers(
            text,
            i,
            false,
        ));
    } else {
        lemma_drop_plain(text, i + 1, e);
        assert(seq![text[i]] + (text.subrange(i + 1, e) + drop_markers(text, e, false)) =~= (
        text.subrange(i, e) + drop_markers(text, e, false)));
    }
}

/// Law: concatenating every token the tokenizer yields reproduces the input
/// exactly, with exactly the line-start markers deleted — no other character
/// is dropped or invented, and markers can never reach a token. On input with
/// no marker to strip the tokens partition the input itself.
pub proof fn lemma_tokens_reproduce_input(text: Seq<char>, pos: int, sol: bool)
    requires
        0 <= pos <= text.len(),
    ensures
        tokens_concat(text, pos, sol) == drop_markers(text, pos, sol),
    decreases text.len() - pos, (if sol { 1int } else { 0int }),
{
    if !has_token(text, pos, sol) {
        if pos < text.len() {
            assert(sol);
            assert(strip_pos(text, pos) == text.len());
            assert(drop_markers(text, text.len() as int, false) =~= Seq::<char>::empty());
            assert(drop_markers(text, pos, sol) =~= Seq::<char>::empty());
        }
    } else {
        let ns = next_start(text, pos, sol);
        let e = token_end(text, ns);
        lemma_token_end_bounds(text, ns);
        if sol {
            assert(tok_val(text, pos, sol) == tok_val(text, ns, false));
            assert(sol_after(text, pos, sol) == sol_after(text, ns, false));
            lemma_tokens_reproduce_input(text, ns, false);
        } else {
            assert(ns == pos);
            if text[pos] == '\n' {
                assert(tok_val(text, pos, false) =~= seq![text[pos]]);
                lemma_tokens_reproduce_input(text, pos + 1, true);
            } else {
                crate::tokens::lemma_scan_ws_run(text, pos + 1);
                crate::tokens::lemma_scan_word_run(text, scan_ws(text, pos + 1));
                crate::tokens::lemma_scan_ws_bounds(text, pos + 1);
                assert forall|j: int| pos <= j < e implies (#[trigger] text[j]) != '\n' by {
                    if pos + 1 <= j < scan_ws(text, pos + 1) {
                        assert(is_merge_ws(text[j]));
                    } else if scan_ws(text, pos + 1) <= j < e {
                        assert(is_word_char(text[j]));
                    }
                }
                lemma_drop_plain(text, pos, e);
                lemma_tokens_reproduce_input(text, e, false);
                assert(sol_after(text, pos, false) == false);
                assert(drop_markers(text, pos, false) == tok_val(text, pos, false)
                    + drop_markers(text, e, false));
            }
        }
    }
}

/// Law: at the start of a line the tokenizer strips a `!< ` marker before
/// producing a token; the marker's characters belong to no token.
pub proof fn lemma_bang_marker_stripped(text: Seq<char>, pos: int)
    requires
        0 <= pos,
        pos + 3 <= text.len(),
        text[pos] == '!',
        text[pos + 1] == '<',
        text[pos + 2] == ' ',
    ensures
        next_start(text, pos, true) == pos + 3,
{
}

/// Law: at the start of a line the tokenizer strips a `< ` marker before
/// producing a token; the marker's characters belong to no token.
pub proof fn lemma_lt_marker_stripped(text: Seq<char>, pos: int)
    requires
        0 <= pos,
        pos + 2 <= text.len(),
        text[pos] == '<',
        text[pos + 1] == ' ',
    ensures
        next_start(text, pos, true) == pos + 2,
{
}

} // verus!