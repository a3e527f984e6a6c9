//! Character classes and small text utilities over `Vec<char>` pieces.

use vstd::prelude::*;
use vstd::string::StrSliceExecFns;

verus! {

/// The three characters that the tokenizer merges into a token after its
/// first character: space, tab, and the non-breaking space. Exactly these
/// three; other Unicode whitespace breaks tokens instead.
pub open spec fn is_merge_ws(c: char) -> bool {
    c == ' ' || c == '\t' || c == '\u{a0}'
}

/// A word character: an ASCII letter, digit, or underscore.
pub open spec fn is_word_char(c: char) -> bool {
    ('0' <= c && c <= '9') || ('A' <= c && c <= 'Z') || c == '_' || ('a' <= c && c <= 'z')
}

/// A character with the Unicode `White_Space` property. Trimming and the
/// blank-piece test go by this class, as `str::trim` does.
pub open spec fn is_uws(c: char) -> bool {
    c == '\u{9}' || c == '\u{a}' || c == '\u{b}' || c == '\u{c}' || c == '\u{d}' || c == ' '
        || c == '\u{85}' || c == '\u{a0}' || c == '\u{1680}' || c == '\u{2000}' || c == '\u{2001}'
        || c == '\u{2002}' || c == '\u{2003}' || c == '\u{2004}' || c == '\u{2005}'
        || c == '\u{2006}' || c == '\u{2007}' || c == '\u{2008}' || c == '\u{2009}'
        || c == '\u{200a}' || c == '\u{2028}' || c == '\u{2029}' || c == '\u{202f}'
        || c == '\u{205f}' || c == '\u{3000}'
}

pub fn merge_ws(c: char) -> (r: bool)
    ensures
        r == is_merge_ws(c),
{
    c == ' ' || c == '\t' || c == '\u{a0}'
}

pub fn word_char(c: char) -> (r: bool)
    ensures
        r == is_word_char(c),
{
    ('0' <= c && c <= '9') || ('A' <= c && c <= 'Z') || c == '_' || ('a' <= c && c <= 'z')
}

pub fn uws(c: char) -> (r: bool)
    ensures
        r == is_uws(c),
{
    c == '\u{9}' || c == '\u{a}' || c == '\u{b}' || c == '\u{c}' || c == '\u{d}' || c == ' '
        || c == '\u{85}' || c == '\u{a0}' || c == '\u{1680}' || c == '\u{2000}' || c == '\u{2001}'
        || c == '\u{2002}' || c == '\u{2003}' || c == '\u{2004}' || c == '\u{2005}'
        || c == '\u{2006}' || c == '\u{2007}' || c == '\u{2008}' || c == '\u{2009}'
        || c == '\u{200a}' || c == '\u{2028}' || c == '\u{2029}' || c == '\u{202f}'
        || c == '\u{205f}' || c == '\u{3000}'
}

/// What `char::is_alphanumeric` returns; it depends on the character alone.
pub uninterp spec fn is_alnum_char(c: char) -> bool;

/// What `char::is_lowercase` returns; it depends on the character alone.
pub uninterp spec fn is_lower_char(c: char) -> bool;

/// What `char::is_uppercase` returns; it depends on the character alone.
pub uninterp spec fn is_upper_char(c: char) -> bool;

/// The characters that `char::to_lowercase` yields, in order; they depend on
/// the character alone.
pub uninterp spec fn lower_chars(c: char) -> Seq<char>;

/// The characters that `char::to_uppercase` yields, in order; they depend on
/// the character alone.
pub uninterp spec fn upper_chars(c: char) -> Seq<char>;

/// Relies on char::is_alphanumeric: true exactly on Unicode letters and
/// numeric characters; its documentation guarantees ASCII letters and digits
/// are among them and no other ASCII character is.
#[verifier::external_body]
pub fn char_is_alphanumeric(c: char) -> (r: bool)
    ensures
        r == is_alnum_char(c),
        ('0' <= c && c <= '9') || ('A' <= c && c <= 'Z') || ('a' <= c && c <= 'z') ==> r,
        (c as u32) < 128 && !(('0' <= c && c <= '9') || ('A' <= c && c <= 'Z') || ('a' <= c && c
            <= 'z')) ==> !r,
{
    c.is_alphanumeric()
}

/// Relies on char::is_lowercase: whether the character is Unicode lowercase.
#[verifier::external_body]
pub fn char_is_lowercase(c: char) -> (r: bool)
    ensures
        r == is_lower_char(c),
{
    c.is_lowercase()
}

/// Relies on char::is_uppercase: whether the character is Unicode uppercase.
#[verifier::external_body]
pub fn char_is_uppercase(c: char) -> (r: bool)
    ensures
        r == is_upper_char(c),
{
    c.is_uppercase()
}

/// Relies on char::to_lowercase: yields the character's Unicode lowercase
/// mapping, one or more characters, from the character alone.
#[verifier::external_body]
pub fn char_to_lowercase(c: char) -> (r: Vec<char>)
    ensures
        r@ == lower_chars(c),
{
    c.to_lowercase().collect()
}

/// Relies on char::to_uppercase: yields the character's Unicode uppercase
/// mapping, one or more characters, from the character alone.
#[verifier::external_body]
pub fn char_to_uppercase(c: char) -> (r: Vec<char>)
    ensures
        r@ == upper_chars(c),
{
    c.to_uppercase().collect()
}

/// The piece with its leading Unicode whitespace removed.
pub open spec fn trim_start_chars(s: Seq<char>) -> Seq<char>
    decreases s.len(),
{
    if s.len() > 0 && is_uws(s[0]) {
        trim_start_chars(s.drop_first())
    } else {
        s
    }
}

/// The piece with its trailing Unicode whitespace removed.
pub open spec fn trim_end_chars(s: Seq<char>) -> Seq<char>
    decreases s.len(),
{
    if s.len() > 0 && is_uws(s[s.len() - 1]) {
        trim_end_chars(s.drop_last())
    } else {
        s
    }
}

/// A piece is blank when every character has the `White_Space` property.
pub open spec fn all_blank(s: Seq<char>) -> bool {
    forall|i: int| 0 <= i < s.len() ==> is_uws(s[i])
}

proof fn lemma_trim_start_at(s: Seq<char>, i: int)
    requires
        0 <= i <= s.len(),
        forall|j: int| 0 <= j < i ==> is_uws(s[j]),
        i < s.len() ==> !is_uws(s[i]),
    ensures
        trim_start_chars(s) == s.subrange(i, s.len() as int),
    decreases i,
{
    if i == 0 {
        if s.len() > 0 && is_uws(s[0]) {
            assert(false);
        }
        assert(s.subrange(0, s.len() as int) =~= s);
    } else {
        let t = s.drop_first();
        lemma_trim_start_at(t, i - 1);
        assert(t.subrange(i - 1, t.len() as int) =~= s.subrange(i, s.len() as int));
    }
}

proof fn lemma_trim_end_at(s: Seq<char>, i: int)
    requires
        0 <= i <= s.len(),
        forall|j: int| i <= j < s.len() ==> is_uws(s[j]),
        i > 0 ==> !is_uws(s[i - 1]),
    ensures
        trim_end_chars(s) == s.subrange(0, i),
    decreases s.len() - i,
{
    if i == s.len() {
        if s.len() > 0 && is_uws(s[s.len() - 1]) {
            assert(false);
        }
        assert(s.subrange(0, s.len() as int) =~= s);
    } else {
        let t = s.drop_last();
        lemma_trim_end_at(t, i);
        assert(t.subrange(0, i) =~= s.subrange(0, i));
    }
}

/// Leading Unicode whitespace removed, as executable code on a piece.
pub fn trim_start_piece(v: &Vec<char>) -> (r: Vec<char>)
    ensures
        r@ == trim_start_chars(v@),
{
    let n = v.len();
    let mut i: usize = 0;
    while i < n && uws(v[i])
        invariant
            0 <= i <= n,
            n == v@.len(),
            forall|j: int| 0 <= j < i ==> is_uws(v@[j]),
        decreases n - i,
    {
        i += 1;
    }
    proof {
        lemma_trim_start_at(v@, i as int);
    }
    let mut r: Vec<char> = Vec::new();
    let mut k: usize = i;
    while k < n
        invariant
            i <= k <= n,
            n == v@.len(),
            r@ == v@.subrange(i as int, k as int),
        decreases n - k,
    {
        r.push(v[k]);
        k += 1;
        proof {
            assert(v@.subrange(i as int, k as int) =~= v@.subrange(i as int, k - 1).push(
                v@[k - 1],
            ));
        }
    }
    r
}

/// Trailing Unicode whitespace removed, as executable code on a piece.
pub fn trim_end_piece(v: &Vec<char>) -> (r: Vec<char>)
    ensures
        r@ == trim_end_chars(v@),
{
    let n = v.len();
    let mut i: usize = n;
    while i > 0 && uws(v[i - 1])
        invariant
            0 <= i <= n,
            n == v@.len(),
            forall|j: int| i <= j < n ==> is_uws(v@[j]),
        decreases i,
    {
        i -= 1;
    }
    proof {
        lemma_trim_end_at(v@, i as int);
    }
    let mut r: Vec<char> = Vec::new();
    let mut k: usize = 0;
    while k < i
        invariant
            0 <= k <= i <= n,
            n == v@.len(),
            r@ == v@.subrange(0, k as int),
        decreases i - k,
    {
        r.push(v[k]);
        k += 1;
        proof {
            assert(v@.subrange(0, k as int) =~= v@.subrange(0, k - 1).push(v@[k - 1]));
        }
    }
    r
}

/// Whether every character of the piece is Unicode whitespace.
pub fn piece_is_blank(v: &Vec<char>) -> (r: bool)
    ensures
        r == all_blank(v@),
{
    let n = v.len();
    let mut i: usize = 0;
    while i < n
        invariant
            0 <= i <= n,
            n == v@.len(),
            forall|j: int| 0 <= j < i ==> is_uws(v@[j]),
        decreases n - i,
    {
        if !uws(v[i]) {
            return false;
        }
        i += 1;
    }
    true
}

/// Trimming from the front never lengthens a piece, and what remains is a
/// suffix of the original piece.
pub proof fn lemma_trim_start_suffix(s: Seq<char>)
    ensures
        trim_start_chars(s).len() <= s.len(),
        trim_start_chars(s) == s.subrange(
            s.len() - trim_start_chars(s).len(),
            s.len() as int,
        ),
    decreases s.len(),
{
    if s.len() > 0 && is_uws(s[0]) {
        let t = s.drop_first();
        lemma_trim_start_suffix(t);
        assert(t.subrange(t.len() - trim_start_chars(t).len(), t.len() as int) =~= s.subrange(
            s.len() - trim_start_chars(s).len(),
            s.len() as int,
        ));
    } else {
        assert(s.subrange(0, s.len() as int) =~= s);
    }
}

/// The first `n` characters of a piece, copied.
pub fn piece_take(v: &Vec<char>, n: usize) -> (r: Vec<char>)
    requires
        n <= v@.len(),
    ensures
        r@ == v@.subrange(0, n as int),
{
    let mut r: Vec<char> = Vec::new();
    let mut k: usize = 0;
    while k < n
        invariant
            0 <= k <= n <= v@.len(),
            r@ == v@.subrange(0, k as int),
        decreases n - k,
    {
        r.push(v[k]);
        k += 1;
        proof {
            assert(v@.subrange(0, k as int) =~= v@.subrange(0, k - 1).push(v@[k - 1]));
        }
    }
    r
}

/// A string's characters as an owned piece.
pub fn str_to_piece(s: &str) -> (r: Vec<char>)
    ensures
        r@ == s@,
{
    let n = s.unicode_len();
    let mut r: Vec<char> = Vec::new();
    let mut k: usize = 0;
    while k < n
        invariant
            0 <= k <= n,
            n == s@.len(),
            r@ == s@.subrange(0, k as int),
        decreases n - k,
    {
        r.push(s.get_char(k));
        k += 1;
        proof {
            assert(s@.subrange(0, k as int) =~= s@.subrange(0, k - 1).push(s@[k - 1]));
        }
    }
    proof {
        assert(s@.subrange(0, n as int) =~= s@);
    }
    r
}

/// A piece with a character outside `White_Space` keeps one after trimming
/// from the front.
pub proof fn lemma_trim_start_nonblank(s: Seq<char>)
    requires
        !all_blank(s),
    ensures
        !all_blank(trim_start_chars(s)),
    decreases s.len(),
{
    if s.len() > 0 && is_uws(s[0]) {
        let t = s.drop_first();
        assert(!all_blank(t)) by {
            let w = choose|i: int| 0 <= i < s.len() && !is_uws(s[i]);
            assert(t[w - 1] == s[w]);
        }
        lemma_trim_start_nonblank(t);
    }
}

/// Trimming a non-blank piece from the back leaves it non-empty, with a
/// non-whitespace last character.
pub proof fn lemma_trim_end_nonblank(s: Seq<char>)
    requires
        !all_blank(s),
    ensures
        trim_end_chars(s).len() > 0,
        !is_uws(trim_end_chars(s)[trim_end_chars(s).len() - 1]),
        !all_blank(trim_end_chars(s)),
    decreases s.len(),
{
    if s.len() > 0 && is_uws(s[s.len() - 1]) {
        let t = s.drop_last();
        assert(!all_blank(t)) by {
            let w = choose|i: int| 0 <= i < s.len() && !is_uws(s[i]);
            assert(t[w] == s[w]);
        }
        lemma_trim_end_nonblank(t);
    }
}

/// A copy of a piece.
pub fn piece_clone(v: &Vec<char>) -> (r: Vec<char>)
    ensures
        r@ == v@,
{
    let mut r: Vec<char> = Vec::new();
    let n = v.len();
    let mut k: usize = 0;
    while k < n
        invariant
            0 <= k <= n,
            n == v@.len(),
            r@ == v@.subrange(0, k as int),
        decreases n - k,
    {
        r.push(v[k]);
        k += 1;
        proof {
            assert(v@.subrange(0, k as int) =~= v@.subrange(0, k - 1).push(v@[k - 1]));
        }
    }
    proof {
        assert(v@.subrange(0, n as int) =~= v@);
    }
    r
}

/// Appends a string's characters to a piece.
pub fn piece_push_str(dst: &mut Vec<char>, s: &str)
    ensures
        final(dst)@ == old(dst)@ + s@,
{
    let n = s.unicode_len();
    let mut k: usize = 0;
    while k < n
        invariant
            0 <= k <= n,
            n == s@.len(),
            dst@ == old(dst)@ + s@.subrange(0, k as int),
        decreases n - k,
    {
        dst.push(s.get_char(k));
        k += 1;
        proof {
            assert(old(dst)@ + s@.subrange(0, k as int) =~= (old(dst)@ + s@.subrange(
                0,
                k - 1,
            )).push(s@[k - 1]));
        }
    }
    proof {
        assert(old(dst)@ + s@.subrange(0, n as int) =~= old(dst)@ + s@);
    }
}

/// Appends a slice of characters to a piece.
pub fn piece_push_slice(dst: &mut Vec<char>, s: &[char])
    ensures
        final(dst)@ == old(dst)@ + s@,
{
    let n = s.len();
    let mut k: usize = 0;
    while k < n
        invariant
            0 <= k <= n,
            n == s@.len(),
            dst@ == old(dst)@ + s@.subrange(0, k as int),
        decreases n - k,
    {
        dst.push(*vstd::slice::slice_index_get(s, k));
        k += 1;
        proof {
            assert(old(dst)@ + s@.subrange(0, k as int) =~= (old(dst)@ + s@.subrange(
                0,
                k - 1,
            )).push(s@[k - 1]));
        }
    }
    proof {
        assert(old(dst)@ + s@.subrange(0, n as int) =~= old(dst)@ + s@);
    }
}

/// Appends one piece to another.
pub fn piece_push_piece(dst: &mut Vec<char>, s: &Vec<char>)
    ensures
        final(dst)@ == old(dst)@ + s@,
{
    piece_push_slice(dst, s.as_slice());
}

/// A piece's deep view is its view: its characters.
pub broadcast proof fn lemma_piece_deep(v: Vec<char>)
    ensures
        #[trigger] v.deep_view() == v@,
{
    assert(v.deep_view() =~= v@);
}

/// Appends every piece of `src` to `dst`, in order.
pub fn append_pieces(dst: &mut Vec<Vec<char>>, src: &Vec<Vec<char>>)
    ensures
        final(dst).deep_view() == old(dst).deep_view() + src.deep_view(),
{
    broadcast use lemma_piece_deep;

    let n = src.len();
    let ghost base = old(dst)@.len() as int;
    let mut k: usize = 0;
    while k < n
        invariant
            0 <= k <= n,
            n == src@.len(),
            dst@.len() == base + k,
            forall|i: int| 0 <= i < base ==> dst@[i] == old(dst)@[i],
            forall|j: int| 0 <= j < k ==> dst@[base + j]@ == (#[trigger] src@[j])@,
        decreases n - k,
    {
        let p = piece_clone(&src[k]);
        let ghost prev = dst@;
        let ghost kk = k as int;
        dst.push(p);
        k += 1;
        proof {
            let cur = dst@;
            assert(cur == prev.push(p));
            assert(prev.len() == base + kk);
            assert forall|j: int| 0 <= j < kk + 1 implies cur[base + j]@ == (
            #[trigger] src@[j])@ by {
                assert(cur == prev.push(p));
                assert(prev.len() == base + kk);
                if j < kk {
                    vstd::seq::lemma_seq_push_index_different_alt(prev, p, base + j);
                    assert(cur[base + j] == prev[base + j]);
                } else {
                    assert(cur[base + j] == p);
                }
            }
        }
    }
    proof {
        let lhs = dst.deep_view();
        let rhs = old(dst).deep_view() + src.deep_view();
        assert forall|i: int| 0 <= i < lhs.len() implies lhs[i] == rhs[i] by {
            lemma_piece_deep(dst@[i]);
            if i < base {
                lemma_piece_deep(old(dst)@[i]);
            } else {
                lemma_piece_deep(src@[i - base]);
            }
        }
        assert(lhs =~= rhs);
    }
}

/// Relies on String's FromIterator over chars: the collected string holds
/// exactly the piece's characters, in order.
#[verifier::external_body]
pub fn chars_to_string(v: &Vec<char>) -> (r: String)
    ensures
        r@ == v@,
{
    v.iter().collect()
}

/// The concatenation of a list of pieces, in order.
pub open spec fn join(ps: Seq<Seq<char>>) -> Seq<char>
    decreases ps.len(),
{
    if ps.len() == 0 {
        Seq::empty()
    } else {
        join(ps.drop_last()) + ps.last()
    }
}

/// Joining one piece yields that piece.
pub proof fn lemma_join_singleton(p: Seq<char>)
    ensures
        join(seq![p]) == p,
{
    reveal_with_fuel(join, 2);
    assert(seq![p].drop_last() =~= Seq::<Seq<char>>::empty());
    assert(join(seq![p]) =~= p);
}

/// Joining distributes over concatenation of piece lists.
pub proof fn lemma_join_concat(a: Seq<Seq<char>>, b: Seq<Seq<char>>)
    ensures
        join(a + b) == join(a) + join(b),
    decreases b.len(),
{
    if b.len() == 0 {
        assert(a + b =~= a);
        assert(join(a) + join(b) =~= join(a));
    } else {
        assert((a + b).drop_last() =~= a + b.drop_last());
        lemma_join_concat(a, b.drop_last());
        assert((a + b).last() == b.last());
        assert(join(a) + (join(b.drop_last()) + b.last()) =~= (join(a) + join(b.drop_last()))
            + b.last());
    }
}

/// An all-whitespace suffix does not change the trim from the back.
pub proof fn lemma_trim_end_concat_blank(a: Seq<char>, b: Seq<char>)
    requires
        all_blank(b),
    ensures
        trim_end_chars(a + b) == trim_end_chars(a),
    decreases b.len(),
{
    if b.len() == 0 {
        assert(a + b =~= a);
    } else {
        assert((a + b).drop_last() =~= a + b.drop_last());
        assert(is_uws((a + b)[(a + b).len() - 1]));
        assert(all_blank(b.drop_last()));
        lemma_trim_end_concat_blank(a, b.drop_last());
    }
}

/// Trimming from the back reaches only into the last non-blank piece.
pub proof fn lemma_trim_end_concat_keep(a: Seq<char>, b: Seq<char>)
    requires
        !all_blank(b),
    ensures
        trim_end_chars(a + b) == a + trim_end_chars(b),
    decreases b.len(),
{
    if b.len() > 0 && is_uws(b[b.len() - 1]) {
        let t = b.drop_last();
        assert(!all_blank(t)) by {
            let w = choose|i: int| 0 <= i < b.len() && !is_uws(b[i]);
            assert(t[w] == b[w]);
        }
        assert((a + b).drop_last() =~= a + t);
        assert(is_uws((a + b)[(a + b).len() - 1]));
        lemma_trim_end_concat_keep(a, t);
    } else {
        assert(b.len() > 0);
        assert(!is_uws((a + b)[(a + b).len() - 1]));
        assert(trim_end_chars(a + b) == a + b);
        assert(trim_end_chars(b) == b);
    }
}

/// The join of all-whitespace pieces is all whitespace.
pub proof fn lemma_join_all_blank(ps: Seq<Seq<char>>)
    requires
        forall|j: int| 0 <= j < ps.len() ==> all_blank(#[trigger] ps[j]),
    ensures
        all_blank(join(ps)),
    decreases ps.len(),
{
    if ps.len() > 0 {
        lemma_join_all_blank(ps.drop_last());
        let a = join(ps.drop_last());
        let b = ps.last();
        assert forall|i: int| 0 <= i < (a + b).len() implies is_uws((a + b)[i]) by {
            if i >= a.len() {
                assert((a + b)[i] == b[i - a.len()]);
            }
        }
    }
}

/// A non-empty join ends with the last piece's last character, when that
/// piece is non-empty.
pub proof fn lemma_join_last(ps: Seq<Seq<char>>)
    requires
        ps.len() > 0,
        ps.last().len() > 0,
    ensures
        join(ps).len() > 0,
        join(ps)[join(ps).len() - 1] == ps.last()[ps.last().len() - 1],
{
}

/// Concatenates pieces into one piece, as executable code.
pub fn join_pieces(ps: &Vec<Vec<char>>) -> (r: Vec<char>)
    ensures
        r@ == join(ps.deep_view()),
{
    let mut r: Vec<char> = Vec::new();
    let n = ps.len();
    let mut i: usize = 0;
    while i < n
        invariant
            0 <= i <= n,
            n == ps@.len(),
            r@ == join(ps.deep_view().subrange(0, i as int)),
        decreases n - i,
    {
        let piece = &ps[i];
        let m = piece.len();
        let mut k: usize = 0;
        while k < m
            invariant
                0 <= k <= m,
                m == piece@.len(),
                piece@ == ps.deep_view()[i as int],
                i < n == ps@.len(),
                r@ == join(ps.deep_view().subrange(0, i as int)) + piece@.subrange(0, k as int),
            decreases m - k,
        {
            r.push(piece[k]);
            k += 1;
            proof {
                assert(piece@.subrange(0, k as int) =~= piece@.subrange(0, k - 1).push(
                    piece@[k - 1],
                ));
            }
        }
        i += 1;
        proof {
            let ds = ps.deep_view();
            assert(ds.subrange(0, i as int).drop_last() =~= ds.subrange(0, i - 1));
            assert(piece@.subrange(0, m as int) =~= piece@);
            assert(r@ == join(ds.subrange(0, i as int)));
        }
    }
    proof {
        assert(ps.deep_view().subrange(0, n as int) =~= ps.deep_view());
    }
    r
}

} // verus!
