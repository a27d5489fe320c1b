//! The word-pattern matcher behind `like` queries.
//!
//! A pattern is split on spaces into tokens; empty tokens are discarded. Every
//! remaining token must appear in the text as a whole word, in pattern order,
//! though other words may stand between them. Inside a token, `*` stands for
//! zero or more word characters; everything else is taken literally. Matching
//! is ASCII-case-insensitive, and a word character is an ASCII letter, a
//! digit or the underscore.

use vstd::prelude::*;

use crate::text::{is_word_char, is_word_char_spec, lower_char, lower_char_spec, lower_seq, str_chars};

verus! {

/// Split a character sequence on a separator; empty parts are kept, so the
/// result always holds one part more than the number of separators.
pub open spec fn split_char(s: Seq<char>, sep: char) -> Seq<Seq<char>>
    decreases s.len(),
{
    if s.len() == 0 {
        seq![Seq::<char>::empty()]
    } else if s[0] == sep {
        seq![Seq::<char>::empty()] + split_char(s.skip(1), sep)
    } else {
        let rest = split_char(s.skip(1), sep);
        seq![seq![s[0]] + rest[0]] + rest.skip(1)
    }
}

pub proof fn lemma_split_char_nonempty(s: Seq<char>, sep: char)
    ensures
        split_char(s, sep).len() >= 1,
    decreases s.len(),
{
    if s.len() == 0 {
    } else {
        lemma_split_char_nonempty(s.skip(1), sep);
    }
}

/// The parsed form of the parts of a pattern: empty tokens dropped, every
/// kept token split on `*` into its literal pieces.
pub open spec fn parse_parts(parts: Seq<Seq<char>>) -> Seq<Seq<Seq<char>>>
    decreases parts.len(),
{
    if parts.len() == 0 {
        Seq::empty()
    } else {
        let rest = parse_parts(parts.drop_last());
        if parts.last().len() == 0 {
            rest
        } else {
            rest.push(split_char(parts.last(), '*'))
        }
    }
}

/// The parsed form of a whole pattern: its tokens, each a sequence of pieces.
pub open spec fn parse_like(pattern: Seq<char>) -> Seq<Seq<Seq<char>>> {
    parse_parts(split_char(pattern, ' '))
}

/// Case-insensitive equality of two characters.
pub open spec fn ieq(a: char, b: char) -> bool {
    lower_char_spec(a) == lower_char_spec(b)
}

/// The literal piece `p` stands at position `x` of `t`, up to case.
pub open spec fn piece_matches_at(t: Seq<char>, p: Seq<char>, x: int) -> bool {
    &&& 0 <= x
    &&& x + p.len() <= t.len()
    &&& forall|k: int| 0 <= k < p.len() ==> ieq(t[x + k], p[k])
}

/// Positions `a` (inclusive) to `b` (exclusive) of `t` hold word characters only.
pub open spec fn word_span(t: Seq<char>, a: int, b: int) -> bool {
    forall|k: int| a <= k < b ==> is_word_char_spec(t[k])
}

/// Position `p` of `t` is a word boundary: exactly one of its two sides is a
/// word character.
pub open spec fn word_boundary(t: Seq<char>, p: int) -> bool {
    let left = p > 0 && p <= t.len() && is_word_char_spec(t[p - 1]);
    let right = 0 <= p && p < t.len() && is_word_char_spec(t[p]);
    left != right
}

/// The pieces of one token fill positions `a` to `b` of `t` exactly: each
/// piece in order, with only word characters standing in for the `*` between
/// two pieces.
pub open spec fn pieces_match(t: Seq<char>, ps: Seq<Seq<char>>, a: int, b: int) -> bool
    decreases ps.len(),
{
    if ps.len() == 0 {
        a == b
    } else if ps.len() == 1 {
        piece_matches_at(t, ps[0], a) && b == a + ps[0].len()
    } else {
        &&& piece_matches_at(t, ps[0], a)
        &&& exists|m: int|
            #![trigger word_span(t, a + ps[0].len(), m)]
            a + ps[0].len() <= m && m <= b && word_span(t, a + ps[0].len(), m) && pieces_match(
                t,
                ps.skip(1),
                m,
                b,
            )
    }
}

/// One token matches positions `a` to `b` of `t`: its pieces fill the range
/// and both ends fall on word boundaries.
pub open spec fn token_matches(t: Seq<char>, ps: Seq<Seq<char>>, a: int, b: int) -> bool {
    word_boundary(t, a) && word_boundary(t, b) && pieces_match(t, ps, a, b)
}

/// All tokens match `t` in order, the first no earlier than `from`; later
/// tokens may start anywhere at or after the previous token's end.
pub open spec fn tokens_match_from(t: Seq<char>, toks: Seq<Seq<Seq<char>>>, from: int) -> bool
    decreases toks.len(),
{
    if toks.len() == 0 {
        true
    } else {
        exists|a: int, b: int|
            #![trigger token_matches(t, toks[0], a, b)]
            from <= a && a <= b && b <= t.len() && token_matches(t, toks[0], a, b)
                && tokens_match_from(t, toks.skip(1), b)
    }
}

/// The whole pattern matches the text.
pub open spec fn like_matches(pattern: Seq<char>, text: Seq<char>) -> bool {
    tokens_match_from(text, parse_like(pattern), 0)
}

/// Pieces that match a tail after a word-character gap extend a match of the
/// piece before the gap.
pub proof fn lemma_pieces_match_step(t: Seq<char>, ps: Seq<Seq<char>>, a: int, b: int, m: int)
    requires
        ps.len() >= 2,
        piece_matches_at(t, ps[0], a),
        a + ps[0].len() <= m <= b,
        word_span(t, a + ps[0].len(), m),
        pieces_match(t, ps.skip(1), m, b),
    ensures
        pieces_match(t, ps, a, b),
{
    assert(word_span(t, a + ps[0].len(), m));
}

/// A match of the first token and a match of the rest after its end extend to
/// a match of the whole token sequence.
pub proof fn lemma_tokens_match_step(
    t: Seq<char>,
    toks: Seq<Seq<Seq<char>>>,
    from: int,
    a: int,
    b: int,
)
    requires
        toks.len() >= 1,
        from <= a <= b <= t.len(),
        token_matches(t, toks[0], a, b),
        tokens_match_from(t, toks.skip(1), b),
    ensures
        tokens_match_from(t, toks, from),
{
    assert(token_matches(t, toks[0], a, b));
}

/// Split the given characters on a separator.
fn split_exec(s: &Vec<char>, sep: char) -> (r: Vec<Vec<char>>)
    ensures
        r.deep_view() == split_char(s@, sep),
{
    let n = s.len();
    let mut done: Vec<Vec<char>> = Vec::new();
    let mut cur: Vec<char> = Vec::new();
    let mut pos: usize = 0;
    proof {
        lemma_split_char_nonempty(s@.skip(0), sep);
        assert(s@.skip(0) =~= s@);
    }
    while pos < n
        invariant
            pos <= n,
            n == s@.len(),
            split_char(s@.skip(pos as int), sep).len() >= 1,
            split_char(s@, sep) == done.deep_view() + seq![
                cur@ + split_char(s@.skip(pos as int), sep)[0],
            ] + split_char(s@.skip(pos as int), sep).skip(1),
        decreases n - pos,
    {
        let ghost tail = s@.skip(pos as int);
        let ghost next = s@.skip(pos + 1 as int);
        proof {
            lemma_split_char_nonempty(next, sep);
            assert(tail.len() > 0);
            assert(tail[0] == s@[pos as int]);
            assert(tail.skip(1) =~= next);
        }
        let c = s[pos];
        if c == sep {
            proof {
                assert(split_char(tail, sep) == seq![Seq::<char>::empty()] + split_char(next, sep));
                assert(split_char(tail, sep)[0] =~= Seq::<char>::empty());
                assert(cur@ + split_char(tail, sep)[0] =~= cur@);
                assert(split_char(tail, sep).skip(1) =~= split_char(next, sep));
            }
            let ghost old_done = done.deep_view();
            let ghost old_cur = cur@;
            done.push(cur);
            cur = Vec::new();
            proof {
                assert(done.deep_view() =~~= old_done.push(old_cur));
                assert(split_char(next, sep) =~= seq![split_char(next, sep)[0]] + split_char(
                    next,
                    sep,
                ).skip(1));
                assert(split_char(s@, sep) =~= done.deep_view() + seq![
                    cur@ + split_char(next, sep)[0],
                ] + split_char(next, sep).skip(1));
            }
        } else {
            proof {
                let rest = split_char(next, sep);
                assert(split_char(tail, sep) == seq![seq![tail[0]] + rest[0]] + rest.skip(1));
                assert(split_char(tail, sep)[0] == seq![s@[pos as int]] + rest[0]);
                assert(cur@.push(c) + rest[0] =~= cur@ + split_char(tail, sep)[0]);
                assert(split_char(tail, sep).skip(1) =~= rest.skip(1));
            }
            cur.push(c);
            proof {
                assert(split_char(s@, sep) =~= done.deep_view() + seq![
                    cur@ + split_char(next, sep)[0],
                ] + split_char(next, sep).skip(1));
            }
        }
        pos = pos + 1;
    }
    proof {
        assert(s@.skip(n as int) =~= Seq::<char>::empty());
        assert(split_char(s@.skip(n as int), sep) == seq![Seq::<char>::empty()]);
        assert(cur@ + split_char(s@.skip(n as int), sep)[0] =~= cur@);
        assert(split_char(s@.skip(n as int), sep).skip(1) =~= Seq::<Seq<char>>::empty());
    }
    let ghost old_done = done.deep_view();
    let ghost old_cur = cur@;
    done.push(cur);
    proof {
        assert(done.deep_view() =~~= old_done.push(old_cur));
        assert(done.deep_view() =~~= split_char(s@, sep));
    }
    done
}

/// Parse a pattern into its tokens, each token a sequence of literal pieces.
pub fn parse_like_exec(pattern: &str) -> (r: Vec<Vec<Vec<char>>>)
    ensures
        r.deep_view() == parse_like(pattern@),
{
    let chars = str_chars(pattern);
    let parts = split_exec(&chars, ' ');
    let m = parts.len();
    let mut toks: Vec<Vec<Vec<char>>> = Vec::new();
    let mut i: usize = 0;
    while i < m
        invariant
            i <= m,
            m == parts.deep_view().len(),
            parts.deep_view() == split_char(pattern@, ' '),
            toks.deep_view() == parse_parts(parts.deep_view().take(i as int)),
        decreases m - i,
    {
        let ghost pre = parts.deep_view().take(i as int);
        let ghost now = parts.deep_view().take(i + 1 as int);
        proof {
            assert(now.drop_last() =~= pre);
            assert(now.last() == parts.deep_view()[i as int]);
            assert(parts.deep_view()[i as int] == parts@[i as int]@);
        }
        if parts[i].len() != 0 {
            let pieces = split_exec(&parts[i], '*');
            toks.push(pieces);
            proof {
                assert(toks.deep_view() =~= parse_parts(pre).push(
                    split_char(parts.deep_view()[i as int], '*'),
                ));
            }
        } else {
            proof {
                assert(toks.deep_view() == parse_parts(now));
            }
        }
        i = i + 1;
    }
    proof {
        assert(parts.deep_view().take(m as int) =~= parts.deep_view());
    }
    toks
}

/// Whether the literal piece `p` stands at position `x` of `t`, up to case.
fn piece_at(t: &Vec<char>, p: &Vec<char>, x: usize) -> (r: bool)
    requires
        x <= t@.len(),
    ensures
        r == piece_matches_at(t@, p@, x as int),
{
    let tn = t.len();
    if p.len() > tn - x {
        return false;
    }
    let n = p.len();
    let mut k: usize = 0;
    while k < n
        invariant
            k <= n,
            n == p@.len(),
            tn == t@.len(),
            x + n <= tn,
            forall|j: int| 0 <= j < k ==> ieq(t@[x + j], p@[j]),
        decreases n - k,
    {
        if lower_char(t[x + k]) != lower_char(p[k]) {
            return false;
        }
        k = k + 1;
    }
    true
}

/// Whether position `p` of `t` is a word boundary.
fn boundary_at(t: &Vec<char>, p: usize) -> (r: bool)
    requires
        p <= t@.len(),
    ensures
        r == word_boundary(t@, p as int),
{
    let left = p > 0 && is_word_char(t[p - 1]);
    let right = p < t.len() && is_word_char(t[p]);
    left != right
}

/// Whether the pieces of one token, from index `pi` on, fill positions `a` to
/// `b` of `t`.
fn pieces_rec(t: &Vec<char>, ps: &Vec<Vec<char>>, pi: usize, a: usize, b: usize) -> (r: bool)
    requires
        pi <= ps@.len(),
        a <= b <= t@.len(),
    ensures
        r == pieces_match(t@, ps.deep_view().skip(pi as int), a as int, b as int),
    decreases ps@.len() - pi,
{
    let ghost suffix = ps.deep_view().skip(pi as int);
    let n = ps.len();
    if pi == n {
        proof {
            assert(suffix.len() == 0);
        }
        return a == b;
    }
    proof {
        assert(suffix[0] == ps.deep_view()[pi as int]);
        assert(ps.deep_view()[pi as int] == ps@[pi as int]@);
    }
    if !piece_at(t, &ps[pi], a) {
        return false;
    }
    let tn = t.len();
    let plen = ps[pi].len();
    proof {
        assert(a + plen <= tn);
    }
    if pi == n - 1 {
        proof {
            assert(suffix.len() == 1);
        }
        return b == a + plen;
    }
    proof {
        assert(suffix.skip(1) =~= ps.deep_view().skip(pi + 1 as int));
        assert(suffix.len() >= 2);
    }
    let start = a + plen;
    if start > b {
        proof {
            assert(!pieces_match(t@, suffix, a as int, b as int));
        }
        return false;
    }
    let mut m = start;
    loop
        invariant
            start <= m <= b <= t@.len(),
            tn == t@.len(),
            n == ps@.len(),
            pi < n,
            pi + 1 < ps@.len(),
            pi + 1 <= ps@.len(),
            a <= start,
            start == a + ps.deep_view()[pi as int].len(),
            suffix == ps.deep_view().skip(pi as int),
            suffix[0] == ps.deep_view()[pi as int],
            suffix.len() >= 2,
            suffix.skip(1) == ps.deep_view().skip(pi + 1 as int),
            piece_matches_at(t@, ps.deep_view()[pi as int], a as int),
            word_span(t@, start as int, m as int),
            forall|w: int|
                start <= w < m ==> !(word_span(t@, start as int, w) && pieces_match(
                    t@,
                    ps.deep_view().skip(pi + 1 as int),
                    w,
                    b as int,
                )),
        decreases b - m,
    {
        if pieces_rec(t, ps, pi + 1, m, b) {
            proof {
                lemma_pieces_match_step(t@, suffix, a as int, b as int, m as int);
            }
            return true;
        }
        if m == b {
            proof {
                assert forall|w: int|
                    a + suffix[0].len() <= w <= b as int implies !(word_span(
                    t@,
                    a + suffix[0].len(),
                    w,
                ) && pieces_match(t@, suffix.skip(1), w, b as int)) by {
                    assert(!(word_span(t@, start as int, w) && pieces_match(
                        t@,
                        ps.deep_view().skip(pi + 1 as int),
                        w,
                        b as int,
                    )));
                }
                assert(!pieces_match(t@, suffix, a as int, b as int));
            }
            return false;
        }
        if !is_word_char(t[m]) {
            proof {
                assert forall|w: int|
                    a + suffix[0].len() <= w <= b as int implies !(word_span(
                    t@,
                    a + suffix[0].len(),
                    w,
                ) && pieces_match(t@, suffix.skip(1), w, b as int)) by {
                    if w > m {
                        assert(!is_word_char_spec(t@[m as int]));
                        assert(!word_span(t@, start as int, w));
                    } else {
                        assert(!(word_span(t@, start as int, w) && pieces_match(
                            t@,
                            ps.deep_view().skip(pi + 1 as int),
                            w,
                            b as int,
                        )));
                    }
                }
                assert(!pieces_match(t@, suffix, a as int, b as int));
            }
            return false;
        }
        m = m + 1;
    }
}

/// Whether the tokens from index `ti` on match `t` in order, starting no
/// earlier than `from`.
fn tokens_rec(t: &Vec<char>, toks: &Vec<Vec<Vec<char>>>, ti: usize, from: usize) -> (r: bool)
    requires
        ti <= toks@.len(),
        from <= t@.len(),
    ensures
        r == tokens_match_from(t@, toks.deep_view().skip(ti as int), from as int),
    decreases toks@.len() - ti,
{
    let ghost suffix = toks.deep_view().skip(ti as int);
    let n = toks.len();
    if ti == n {
        return true;
    }
    proof {
        assert(suffix[0] == toks.deep_view()[ti as int]);
        assert(toks.deep_view()[ti as int] == toks@[ti as int].deep_view());
        assert(suffix.skip(1) =~= toks.deep_view().skip(ti + 1 as int));
    }
    let len = t.len();
    let mut a: usize = from;
    loop
        invariant
            from <= a <= len,
            len == t@.len(),
            from <= t@.len(),
            n == toks@.len(),
            ti < n,
            ti + 1 <= toks@.len(),
            suffix == toks.deep_view().skip(ti as int),
            suffix[0] == toks@[ti as int].deep_view(),
            suffix.skip(1) == toks.deep_view().skip(ti + 1 as int),
            forall|x: int, y: int|
                from <= x < a && x <= y <= len ==> !(token_matches(t@, suffix[0], x, y)
                    && tokens_match_from(t@, suffix.skip(1), y)),
        ensures
            forall|x: int, y: int|
                from <= x <= y <= len ==> !(token_matches(t@, suffix[0], x, y)
                    && tokens_match_from(t@, suffix.skip(1), y)),
        decreases len - a,
    {
        if boundary_at(t, a) {
            let mut b: usize = a;
            loop
                invariant
                    a <= b <= len,
                    from <= a <= len,
                    len == t@.len(),
                    n == toks@.len(),
                    ti < n,
                    ti + 1 <= toks@.len(),
                    suffix == toks.deep_view().skip(ti as int),
                    suffix[0] == toks@[ti as int].deep_view(),
                    suffix.skip(1) == toks.deep_view().skip(ti + 1 as int),
                    word_boundary(t@, a as int),
                    forall|y: int|
                        a <= y < b ==> !(token_matches(t@, suffix[0], a as int, y)
                            && tokens_match_from(t@, suffix.skip(1), y)),
                ensures
                    forall|y: int|
                        a <= y <= len ==> !(token_matches(t@, suffix[0], a as int, y)
                            && tokens_match_from(t@, suffix.skip(1), y)),
                decreases len - b,
            {
                proof {
                    assert(toks@[ti as int].deep_view().skip(0) =~= suffix[0]);
                }
                if boundary_at(t, b) && pieces_rec(t, &toks[ti], 0, a, b) {
                    if tokens_rec(t, toks, ti + 1, b) {
                        proof {
                            assert(token_matches(t@, suffix[0], a as int, b as int));
                            lemma_tokens_match_step(
                                t@,
                                suffix,
                                from as int,
                                a as int,
                                b as int,
                            );
                        }
                        return true;
                    }
                }
                if b == len {
                    proof {
                        assert forall|y: int|
                            a <= y <= len implies !(token_matches(t@, suffix[0], a as int, y)
                            && tokens_match_from(t@, suffix.skip(1), y)) by {}
                    }
                    break;
                }
                b = b + 1;
            }
        } else {
            proof {
                assert forall|y: int|
                    a <= y <= len implies !(token_matches(t@, suffix[0], a as int, y)
                    && tokens_match_from(t@, suffix.skip(1), y)) by {
                    assert(!word_boundary(t@, a as int));
                }
            }
        }
        proof {
            assert(forall|y: int|
                a <= y <= len ==> !(token_matches(t@, suffix[0], a as int, y)
                    && tokens_match_from(t@, suffix.skip(1), y)));
        }
        if a == len {
            proof {
                assert forall|x: int, y: int|
                    from <= x <= y <= len implies !(token_matches(t@, suffix[0], x, y)
                    && tokens_match_from(t@, suffix.skip(1), y)) by {}
            }
            break;
        }
        a = a + 1;
    }
    proof {
        if tokens_match_from(t@, suffix, from as int) {
            let (x, y) = choose|x: int, y: int|
                from <= x <= y <= t@.len() && token_matches(t@, suffix[0], x, y)
                    && tokens_match_from(t@, suffix.skip(1), y);
            assert(false);
        }
    }
    false
}

pub proof fn lemma_lower_char_idempotent(c: char)
    ensures
        lower_char_spec(lower_char_spec(c)) == lower_char_spec(c),
{
    if 'A' <= c && c <= 'Z' {
        assert('a' <= lower_char_spec(c) && lower_char_spec(c) <= 'z');
    }
}

proof fn lemma_lower_seq_pointwise(t: Seq<char>)
    ensures
        lower_seq(t).len() == t.len(),
        forall|k: int| 0 <= k < t.len() ==> lower_seq(t)[k] == lower_char_spec(t[k]),
        forall|k: int|
            0 <= k < t.len() ==> is_word_char_spec(lower_seq(t)[k]) == is_word_char_spec(t[k]),
{
    assert forall|k: int|
        0 <= k < t.len() implies is_word_char_spec(lower_seq(t)[k]) == is_word_char_spec(
        t[k],
    ) by {
        assert(lower_seq(t)[k] == lower_char_spec(t[k]));
    }
}

proof fn lemma_piece_matches_fold(t: Seq<char>, p: Seq<char>, x: int)
    ensures
        piece_matches_at(lower_seq(t), p, x) == piece_matches_at(t, p, x),
{
    lemma_lower_seq_pointwise(t);
    assert forall|k: int| 0 <= k < p.len() && 0 <= x && x + p.len() <= t.len() implies ieq(
        lower_seq(t)[x + k],
        p[k],
    ) == ieq(t[x + k], p[k]) by {
        lemma_lower_char_idempotent(t[x + k]);
    }
}

proof fn lemma_word_span_fold(t: Seq<char>, a: int, b: int)
    requires
        0 <= a,
        b <= t.len(),
    ensures
        word_span(lower_seq(t), a, b) == word_span(t, a, b),
{
    lemma_lower_seq_pointwise(t);
}

proof fn lemma_boundary_fold(t: Seq<char>, p: int)
    ensures
        word_boundary(lower_seq(t), p) == word_boundary(t, p),
{
    lemma_lower_seq_pointwise(t);
}

proof fn lemma_pieces_match_fold(t: Seq<char>, ps: Seq<Seq<char>>, a: int, b: int)
    ensures
        pieces_match(lower_seq(t), ps, a, b) == pieces_match(t, ps, a, b),
    decreases ps.len(),
{
    lemma_lower_seq_pointwise(t);
    if ps.len() == 0 {
    } else if ps.len() == 1 {
        lemma_piece_matches_fold(t, ps[0], a);
    } else {
        lemma_piece_matches_fold(t, ps[0], a);
        let lt = lower_seq(t);
        if pieces_match(lt, ps, a, b) {
            let m = choose|m: int|
                #![trigger word_span(lt, a + ps[0].len(), m)]
                a + ps[0].len() <= m && m <= b && word_span(lt, a + ps[0].len(), m)
                    && pieces_match(lt, ps.skip(1), m, b);
            lemma_pieces_match_fold(t, ps.skip(1), m, b);
            if 0 <= a + ps[0].len() && m <= t.len() {
                lemma_word_span_fold(t, a + ps[0].len(), m);
            } else {
                assert(word_span(t, a + ps[0].len(), m) == word_span(lt, a + ps[0].len(), m));
            }
            lemma_pieces_match_step(t, ps, a, b, m);
        }
        if pieces_match(t, ps, a, b) {
            let m = choose|m: int|
                #![trigger word_span(t, a + ps[0].len(), m)]
                a + ps[0].len() <= m && m <= b && word_span(t, a + ps[0].len(), m)
                    && pieces_match(t, ps.skip(1), m, b);
            lemma_pieces_match_fold(t, ps.skip(1), m, b);
            if 0 <= a + ps[0].len() && m <= t.len() {
                lemma_word_span_fold(t, a + ps[0].len(), m);
            } else {
                assert(word_span(t, a + ps[0].len(), m) == word_span(lt, a + ps[0].len(), m));
            }
            lemma_pieces_match_step(lt, ps, a, b, m);
        }
    }
}

proof fn lemma_tokens_match_fold(t: Seq<char>, toks: Seq<Seq<Seq<char>>>, from: int)
    ensures
        tokens_match_from(lower_seq(t), toks, from) == tokens_match_from(t, toks, from),
    decreases toks.len(),
{
    lemma_lower_seq_pointwise(t);
    if toks.len() == 0 {
    } else {
        let lt = lower_seq(t);
        if tokens_match_from(lt, toks, from) {
            let (a, b) = choose|a: int, b: int|
                #![trigger token_matches(lt, toks[0], a, b)]
                from <= a && a <= b && b <= lt.len() && token_matches(lt, toks[0], a, b)
                    && tokens_match_from(lt, toks.skip(1), b);
            lemma_boundary_fold(t, a);
            lemma_boundary_fold(t, b);
            lemma_pieces_match_fold(t, toks[0], a, b);
            lemma_tokens_match_fold(t, toks.skip(1), b);
            lemma_tokens_match_step(t, toks, from, a, b);
        }
        if tokens_match_from(t, toks, from) {
            let (a, b) = choose|a: int, b: int|
                #![trigger token_matches(t, toks[0], a, b)]
                from <= a && a <= b && b <= t.len() && token_matches(t, toks[0], a, b)
                    && tokens_match_from(t, toks.skip(1), b);
            lemma_boundary_fold(t, a);
            lemma_boundary_fold(t, b);
            lemma_pieces_match_fold(t, toks[0], a, b);
            lemma_tokens_match_fold(t, toks.skip(1), b);
            lemma_tokens_match_step(lt, toks, from, a, b);
        }
    }
}

/// Matching is case-insensitive: a pattern matches a text exactly when it
/// matches the ASCII-lower-cased text.
pub proof fn lemma_like_case_insensitive(pattern: Seq<char>, text: Seq<char>)
    ensures
        like_matches(pattern, lower_seq(text)) == like_matches(pattern, text),
{
    lemma_tokens_match_fold(text, parse_like(pattern), 0);
}

/// Whether the pattern matches the text.
pub fn like_match(pattern: &str, text: &str) -> (r: bool)
    ensures
        r == like_matches(pattern@, text@),
{
    let toks = parse_like_exec(pattern);
    let chars = str_chars(text);
    proof {
        assert(toks.deep_view().skip(0) =~= toks.deep_view());
    }
    tokens_rec(&chars, &toks, 0, 0)
}

} // verus!
