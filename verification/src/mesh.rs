//! The mesh data model: vertices, 1-indexed triangular faces, per-mesh
//! rotation, scale and translation state, and the line-oriented text format
//! the mesh can be loaded from.
//!
//! The text format is whitespace-tokenized. A line whose first token is `v`
//! carries three floating-point fields; one whose first token is `f` carries
//! three 1-based vertex indices, each optionally followed by `/`-separated
//! extra fields that are ignored; every other line is ignored. A missing or
//! non-numeric field is a parse error; a face index outside the vertex list
//! is a validation error.
//!
//! Vertex coordinates pass through this crate opaquely, as the bit patterns
//! of IEEE 754 single-precision values: the loader validates a coordinate
//! token's shape against the floating-point grammar that `f32::from_str`
//! documents, and the caller turns accepted tokens into bits.

use vstd::prelude::*;

use crate::triangle::Face;
use crate::vector::{Vec3Bits, F32_NEG_ONE_BITS, F32_ONE_BITS};

verus! {

/// Number of vertices in a cube.
pub const N_CUBE_VERTICES: usize = 8;

/// Number of faces in a cube: six sides, two triangles per side.
pub const N_CUBE_FACES: usize = 12;

/// Token-separating whitespace inside a line: space, tab or carriage
/// return.
pub open spec fn is_space(b: u8) -> bool {
    b == 32 || b == 9 || b == 13
}

/// An ASCII decimal digit.
pub open spec fn is_digit(b: u8) -> bool {
    48 <= b <= 57
}

/// The length of the first line of `s`: the number of bytes before the
/// first line feed, or all of `s` if it has none.
pub open spec fn line_len(s: Seq<u8>) -> nat
    decreases s.len(),
{
    if s.len() == 0 {
        0
    } else if s[0] == 10 {
        0
    } else {
        1 + line_len(s.drop_first())
    }
}

/// The first line is never longer than the text.
pub proof fn lemma_line_len_le(s: Seq<u8>)
    ensures
        line_len(s) <= s.len(),
    decreases s.len(),
{
    if s.len() > 0 && s[0] != 10 {
        lemma_line_len_le(s.drop_first());
    }
}

/// The length of the first line is the position of the first line feed.
pub proof fn lemma_line_len_is(s: Seq<u8>, n: int)
    requires
        0 <= n <= s.len(),
        forall|i: int| 0 <= i < n ==> s[i] != 10,
        n == s.len() || s[n] == 10,
    ensures
        line_len(s) == n,
    decreases n,
{
    if n > 0 {
        lemma_line_len_is(s.drop_first(), n - 1);
    }
}

/// The text split into lines at line feeds. A trailing line feed ends the
/// last line without starting a new one.
pub open spec fn split_lines(s: Seq<u8>) -> Seq<Seq<u8>>
    decreases s.len(),
    via split_lines_decreases
{
    if s.len() == 0 {
        Seq::empty()
    } else {
        let n = line_len(s) as int;
        if n == s.len() {
            seq![s]
        } else {
            seq![s.take(n)] + split_lines(s.skip(n + 1))
        }
    }
}

#[via_fn]
proof fn split_lines_decreases(s: Seq<u8>) {
    lemma_line_len_le(s);
}

/// The length of the leading token of `l`: the number of bytes before the
/// first whitespace byte, or all of `l` if it has none.
pub open spec fn token_len(l: Seq<u8>) -> nat
    decreases l.len(),
{
    if l.len() == 0 {
        0
    } else if is_space(l[0]) {
        0
    } else {
        1 + token_len(l.drop_first())
    }
}

/// The leading token is never longer than the line.
pub proof fn lemma_token_len_le(l: Seq<u8>)
    ensures
        token_len(l) <= l.len(),
    decreases l.len(),
{
    if l.len() > 0 && !is_space(l[0]) {
        lemma_token_len_le(l.drop_first());
    }
}

/// The length of the leading token is the position of the first whitespace
/// byte.
pub proof fn lemma_token_len_is(l: Seq<u8>, n: int)
    requires
        0 <= n <= l.len(),
        forall|i: int| 0 <= i < n ==> !is_space(#[trigger] l[i]),
        n == l.len() || is_space(l[n]),
    ensures
        token_len(l) == n,
    decreases n,
{
    if n > 0 {
        lemma_token_len_is(l.drop_first(), n - 1);
    }
}

/// The line split into its whitespace-delimited tokens, in order; the
/// tokens hold no whitespace and runs of whitespace are not kept.
pub open spec fn tokens_of(l: Seq<u8>) -> Seq<Seq<u8>>
    decreases l.len(),
    via tokens_of_decreases
{
    if l.len() == 0 {
        Seq::empty()
    } else if is_space(l[0]) {
        tokens_of(l.drop_first())
    } else {
        seq![l.take(token_len(l) as int)] + tokens_of(l.skip(token_len(l) as int))
    }
}

#[via_fn]
proof fn tokens_of_decreases(l: Seq<u8>) {
    lemma_token_len_le(l);
}

/// An upper-case ASCII letter folded to lower case; other bytes unchanged.
pub open spec fn lower(b: u8) -> u8 {
    if 65 <= b <= 90 {
        (b + 32) as u8
    } else {
        b
    }
}

/// Whether the token spells the given lower-case keyword, ignoring ASCII
/// case.
pub open spec fn matches_keyword_ci(t: Seq<u8>, w: Seq<u8>) -> bool {
    t.len() == w.len() && forall|i: int| 0 <= i < t.len() ==> lower(#[trigger] t[i]) == w[i]
}

/// Whether every byte is an ASCII decimal digit.
pub open spec fn all_digits(t: Seq<u8>) -> bool {
    forall|i: int| 0 <= i < t.len() ==> is_digit(#[trigger] t[i])
}

/// A mantissa: digits with at most one decimal point and at least one
/// digit. This is `Digit+ | Digit+ '.' Digit* | Digit* '.' Digit+`.
pub open spec fn is_mantissa(m: Seq<u8>) -> bool {
    (m.len() >= 1 && all_digits(m)) || (exists|d: int|
        0 <= d < m.len() && m[d] == 46 && all_digits(m.take(d)) && all_digits(m.skip(d + 1))
            && m.len() >= 2)
}

/// An exponent body: an optional sign followed by at least one digit.
pub open spec fn is_exponent(x: Seq<u8>) -> bool {
    (x.len() >= 1 && all_digits(x)) || (x.len() >= 2 && (x[0] == 43 || x[0] == 45) && all_digits(
        x.skip(1),
    ))
}

/// A number: a mantissa, optionally followed by `e` or `E` and an exponent.
pub open spec fn is_number(b: Seq<u8>) -> bool {
    is_mantissa(b) || (exists|e: int|
        0 <= e < b.len() && (b[e] == 101 || b[e] == 69) && is_mantissa(b.take(e)) && is_exponent(
            b.skip(e + 1),
        ))
}

/// The token with one leading sign removed, if any.
pub open spec fn unsigned_part(t: Seq<u8>) -> Seq<u8> {
    if t.len() >= 1 && (t[0] == 43 || t[0] == 45) {
        t.skip(1)
    } else {
        t
    }
}

/// Whether the token is a floating-point field, following the grammar that
/// `f32::from_str` documents: an optional sign, then `inf`, `infinity` or
/// `nan` ignoring case, or a number with an optional exponent.
pub open spec fn is_float_token(t: Seq<u8>) -> bool {
    matches_keyword_ci(unsigned_part(t), seq![105u8, 110u8, 102u8]) || matches_keyword_ci(
        unsigned_part(t),
        seq![105u8, 110u8, 102u8, 105u8, 110u8, 105u8, 116u8, 121u8],
    ) || matches_keyword_ci(unsigned_part(t), seq![110u8, 97u8, 110u8]) || is_number(
        unsigned_part(t),
    )
}

/// Every byte of a mantissa is a digit or the decimal point.
proof fn lemma_mantissa_bytes(m: Seq<u8>, i: int)
    requires
        is_mantissa(m),
        0 <= i < m.len(),
    ensures
        is_digit(m[i]) || m[i] == 46,
{
    if !(m.len() >= 1 && all_digits(m)) {
        let d = choose|d: int|
            0 <= d < m.len() && m[d] == 46 && all_digits(m.take(d)) && all_digits(#[trigger] m.skip(d + 1))
                && m.len() >= 2;
        if i < d {
            assert(m.take(d)[i] == m[i]);
            assert(is_digit(m.take(d)[i]));
        } else if i > d {
            assert(m.skip(d + 1)[i - d - 1] == m[i]);
            assert(is_digit(m.skip(d + 1)[i - d - 1]));
        }
    }
}

/// Tests a byte for token-separating whitespace.
fn is_space_byte(b: u8) -> (r: bool)
    ensures
        r == is_space(b),
{
    b == 32u8 || b == 9u8 || b == 13u8
}

/// Splits raw text into its lines.
fn split_into_lines(data: &[u8]) -> (lines: Vec<Vec<u8>>)
    ensures
        lines@.map_values(|l: Vec<u8>| l@) == split_lines(data@),
{
    let mut lines: Vec<Vec<u8>> = Vec::new();
    let mut pos: usize = 0;
    let len = data.len();
    proof {
        assert(lines@.map_values(|l: Vec<u8>| l@) =~= Seq::<Seq<u8>>::empty());
        assert(data@.skip(0) =~= data@);
        assert(Seq::<Seq<u8>>::empty() + split_lines(data@) =~= split_lines(data@));
    }
    while pos < len
        invariant
            0 <= pos <= len,
            len == data@.len(),
            lines@.map_values(|l: Vec<u8>| l@) + split_lines(data@.skip(pos as int)) == split_lines(
                data@,
            ),
        decreases len - pos,
    {
        let mut line: Vec<u8> = Vec::new();
        let mut j: usize = pos;
        while j < len && *vstd::slice::slice_index_get(data, j) != 10u8
            invariant
                pos <= j <= len,
                len == data@.len(),
                line@ == data@.subrange(pos as int, j as int),
                forall|i: int| pos <= i < j ==> data@[i] != 10,
            decreases len - j,
        {
            line.push(*vstd::slice::slice_index_get(data, j));
            proof {
                assert(line@ =~= data@.subrange(pos as int, j + 1));
            }
            j = j + 1;
        }
        proof {
            let rest = data@.skip(pos as int);
            assert(forall|i: int|
                0 <= i < j - pos ==> rest[i] == data@[i + pos] && #[trigger] rest[i] != 10);
            if j < len {
                assert(rest[j - pos] == 10);
            }
            lemma_line_len_is(rest, j - pos);
            assert(rest.take(j - pos) =~= line@);
            if j == len {
                assert(rest.take(j - pos) =~= rest);
                assert(split_lines(rest) == seq![rest]);
                assert((lines@.map_values(|l: Vec<u8>| l@)).push(line@) =~= lines@.map_values(
                    |l: Vec<u8>| l@,
                ) + seq![line@]);
                assert(data@.skip(len as int) =~= Seq::<u8>::empty());
            } else {
                assert(split_lines(rest) == seq![rest.take(j - pos)] + split_lines(
                    rest.skip(j - pos + 1),
                ));
                assert(rest.skip(j - pos + 1) =~= data@.skip(j + 1));
            }
            assert((lines@.push(line)).map_values(|l: Vec<u8>| l@) =~= lines@.map_values(
                |l: Vec<u8>| l@,
            ).push(line@));
        }
        lines.push(line);
        if j == len {
            pos = len;
        } else {
            pos = j + 1;
        }
    }
    proof {
        assert(data@.skip(len as int) =~= Seq::<u8>::empty());
        assert(lines@.map_values(|l: Vec<u8>| l@) =~= lines@.map_values(|l: Vec<u8>| l@)
            + split_lines(Seq::<u8>::empty()));
    }
    lines
}

/// Splits a line into its whitespace-delimited tokens.
fn tokenize(line: &Vec<u8>) -> (toks: Vec<Vec<u8>>)
    ensures
        toks@.map_values(|t: Vec<u8>| t@) == tokens_of(line@),
{
    let mut toks: Vec<Vec<u8>> = Vec::new();
    let mut pos: usize = 0;
    let len = line.len();
    proof {
        assert(toks@.map_values(|t: Vec<u8>| t@) =~= Seq::<Seq<u8>>::empty());
        assert(line@.skip(0) =~= line@);
        assert(Seq::<Seq<u8>>::empty() + tokens_of(line@) =~= tokens_of(line@));
    }
    while pos < len
        invariant
            0 <= pos <= len,
            len == line@.len(),
            toks@.map_values(|t: Vec<u8>| t@) + tokens_of(line@.skip(pos as int)) == tokens_of(
                line@,
            ),
        decreases len - pos,
    {
        let b = line[pos];
        if b == 32u8 || b == 9u8 || b == 13u8 {
            proof {
                assert(line@.skip(pos as int).drop_first() =~= line@.skip(pos + 1));
            }
            pos = pos + 1;
        } else {
            let mut tok: Vec<u8> = Vec::new();
            let mut j: usize = pos;
            while j < len && !is_space_byte(line[j])
                invariant
                    pos <= j <= len,
                    len == line@.len(),
                    tok@ == line@.subrange(pos as int, j as int),
                    forall|i: int| pos <= i < j ==> !is_space(#[trigger] line@[i]),
                decreases len - j,
            {
                tok.push(line[j]);
                proof {
                    assert(tok@ =~= line@.subrange(pos as int, j + 1));
                }
                j = j + 1;
            }
            proof {
                let rest = line@.skip(pos as int);
                assert(forall|i: int|
                    0 <= i < j - pos ==> rest[i] == line@[i + pos] && !is_space(
                        #[trigger] rest[i],
                    ));
                if j < len {
                    assert(is_space(rest[j - pos]));
                }
                lemma_token_len_is(rest, j - pos);
                assert(rest.take(j - pos) =~= tok@);
                assert(!is_space(rest[0]));
                assert(tokens_of(rest) == seq![rest.take(j - pos)] + tokens_of(
                    rest.skip(j - pos),
                ));
                assert(rest.skip(j - pos) =~= line@.skip(j as int));
                assert((toks@.push(tok)).map_values(|t: Vec<u8>| t@) =~= toks@.map_values(
                    |t: Vec<u8>| t@,
                ).push(tok@));
            }
            toks.push(tok);
            pos = j;
        }
    }
    proof {
        assert(line@.skip(len as int) =~= Seq::<u8>::empty());
        assert(toks@.map_values(|t: Vec<u8>| t@) =~= toks@.map_values(|t: Vec<u8>| t@)
            + tokens_of(Seq::<u8>::empty()));
    }
    toks
}

/// Tests a byte for an ASCII decimal digit.
fn is_digit_byte(b: u8) -> (r: bool)
    ensures
        r == is_digit(b),
{
    48u8 <= b && b <= 57u8
}

/// Folds an upper-case ASCII letter to lower case.
fn lower_byte(b: u8) -> (r: u8)
    ensures
        r == lower(b),
{
    if 65u8 <= b && b <= 90u8 {
        b + 32
    } else {
        b
    }
}

/// Tests whether the bytes of `t` from `from` to `to` are all digits.
fn all_digits_range(t: &Vec<u8>, from: usize, to: usize) -> (r: bool)
    requires
        from <= to <= t@.len(),
    ensures
        r == all_digits(t@.subrange(from as int, to as int)),
{
    let mut i: usize = from;
    while i < to
        invariant
            from <= i <= to <= t@.len(),
            forall|k: int| from <= k < i ==> is_digit(#[trigger] t@[k]),
        decreases to - i,
    {
        if !is_digit_byte(t[i]) {
            proof {
                assert(t@.subrange(from as int, to as int)[i - from] == t@[i as int]);
            }
            return false;
        }
        i = i + 1;
    }
    proof {
        assert forall|k: int| 0 <= k < to - from implies is_digit(
            #[trigger] t@.subrange(from as int, to as int)[k],
        ) by {
            assert(t@.subrange(from as int, to as int)[k] == t@[k + from]);
        }
    }
    true
}

/// Tests whether the bytes of `t` from `from` on spell `inf`, `infinity`
/// or `nan`, ignoring ASCII case.
fn is_keyword_from(t: &Vec<u8>, from: usize) -> (r: bool)
    requires
        from <= t@.len(),
    ensures
        r == (matches_keyword_ci(t@.skip(from as int), seq![105u8, 110u8, 102u8])
            || matches_keyword_ci(
            t@.skip(from as int),
            seq![105u8, 110u8, 102u8, 105u8, 110u8, 105u8, 116u8, 121u8],
        ) || matches_keyword_ci(t@.skip(from as int), seq![110u8, 97u8, 110u8])),
{
    let inf = keyword_eq(t, from, [105u8, 110u8, 102u8]);
    let infinity = keyword_eq(t, from, [105u8, 110u8, 102u8, 105u8, 110u8, 105u8, 116u8, 121u8]);
    let nan = keyword_eq(t, from, [110u8, 97u8, 110u8]);
    proof {
        assert([105u8, 110u8, 102u8]@ =~= seq![105u8, 110u8, 102u8]);
        assert([105u8, 110u8, 102u8, 105u8, 110u8, 105u8, 116u8, 121u8]@ =~= seq![
            105u8,
            110u8,
            102u8,
            105u8,
            110u8,
            105u8,
            116u8,
            121u8,
        ]);
        assert([110u8, 97u8, 110u8]@ =~= seq![110u8, 97u8, 110u8]);
    }
    inf || infinity || nan
}

/// Compares the bytes of `t` from `from` on against a keyword, ignoring
/// ASCII case.
fn keyword_eq<const N: usize>(t: &Vec<u8>, from: usize, w: [u8; N]) -> (r: bool)
    requires
        from <= t@.len(),
    ensures
        r == matches_keyword_ci(t@.skip(from as int), w@),
{
    let ghost rest = t@.skip(from as int);
    proof {
        assert(forall|k: int| 0 <= k < rest.len() ==> #[trigger] rest[k] == t@[from + k]);
    }
    if t.len() - from != N {
        return false;
    }
    let mut i: usize = 0;
    while i < N
        invariant
            0 <= i <= N,
            from + N == t@.len(),
            t@.len() <= usize::MAX,
            rest == t@.skip(from as int),
            forall|k: int| 0 <= k < i ==> lower(#[trigger] t@[from + k]) == w@[k],
        decreases N - i,
    {
        let wi = w[i];
        if lower_byte(t[from + i]) != wi {
            proof {
                assert(rest[i as int] == t@[from + i]);
            }
            return false;
        }
        i = i + 1;
    }
    proof {
        assert forall|k: int| 0 <= k < rest.len() implies lower(#[trigger] rest[k]) == w@[k] by {
            assert(rest[k] == t@[from + k]);
        }
    }
    true
}

/// Tests whether the bytes of `t` from `from` to `to` form a mantissa.
fn check_mantissa(t: &Vec<u8>, from: usize, to: usize) -> (r: bool)
    requires
        from <= to <= t@.len(),
    ensures
        r == is_mantissa(t@.subrange(from as int, to as int)),
{
    let ghost m = t@.subrange(from as int, to as int);
    let mut i: usize = from;
    while i < to && t[i] != 46u8
        invariant
            from <= i <= to <= t@.len(),
            forall|k: int| from <= k < i ==> t@[k] != 46,
        decreases to - i,
    {
        i = i + 1;
    }
    proof {
        assert(forall|k: int| 0 <= k < to - from ==> #[trigger] m[k] == t@[k + from]);
    }
    if i == to {
        // No decimal point: the field must be one or more digits.
        let r = to - from >= 1 && all_digits_range(t, from, to);
        proof {
            if !r && is_mantissa(m) {
                let d = choose|d: int|
                    0 <= d < m.len() && #[trigger] m[d] == 46 && all_digits(m.take(d))
                        && all_digits(m.skip(d + 1)) && m.len() >= 2;
            }
        }
        r
    } else {
        // A decimal point splits the field; both sides must be digits and
        // at least one digit must be present.
        let r = to - from >= 2 && all_digits_range(t, from, i) && all_digits_range(t, i + 1, to);
        proof {
            let p = i - from;
            assert(m[p] == 46);
            if r {
                assert(m.take(p) =~= t@.subrange(from as int, i as int));
                assert(m.skip(p + 1) =~= t@.subrange(i + 1, to as int));
                assert(is_mantissa(m));
            } else {
                if is_mantissa(m) {
                    assert(!(m.len() >= 1 && all_digits(m)));
                    let d = choose|d: int|
                        0 <= d < m.len() && #[trigger] m[d] == 46 && all_digits(m.take(d))
                            && all_digits(m.skip(d + 1)) && m.len() >= 2;
                    assert(d >= p) by {
                        if d < p {
                            assert(t@[d + from] != 46);
                        }
                    }
                    assert(d == p) by {
                        if d > p {
                            assert(m.take(d)[p] == m[p]);
                            assert(is_digit(m.take(d)[p]));
                        }
                    }
                    assert(all_digits(t@.subrange(from as int, i as int))) by {
                        assert(t@.subrange(from as int, i as int) =~= m.take(p));
                    }
                    assert(all_digits(t@.subrange(i + 1, to as int))) by {
                        assert(t@.subrange(i + 1, to as int) =~= m.skip(p + 1));
                    }
                }
            }
        }
        r
    }
}

/// Tests whether the bytes of `t` from `from` to `to` form an exponent
/// body.
fn check_exponent(t: &Vec<u8>, from: usize, to: usize) -> (r: bool)
    requires
        from <= to <= t@.len(),
    ensures
        r == is_exponent(t@.subrange(from as int, to as int)),
{
    let ghost x = t@.subrange(from as int, to as int);
    proof {
        assert(forall|k: int| 0 <= k < to - from ==> #[trigger] x[k] == t@[k + from]);
    }
    if to - from >= 1 && (t[from] == 43u8 || t[from] == 45u8) {
        let r = to - from >= 2 && all_digits_range(t, from + 1, to);
        proof {
            assert(x.len() == to - from);
            assert(x[0] == t@[from as int]);
            assert(x.skip(1) =~= t@.subrange(from + 1, to as int));
            assert(!is_digit(x[0]));
            if r {
                assert(all_digits(x.skip(1)));
                assert(is_exponent(x));
            } else {
                assert(!is_exponent(x));
            }
        }
        r
    } else {
        let r = to - from >= 1 && all_digits_range(t, from, to);
        proof {
            assert(x.len() == to - from);
            if to - from >= 1 {
                assert(x[0] == t@[from as int]);
                assert(!(x[0] == 43 || x[0] == 45));
            }
            if r {
                assert(all_digits(x));
                assert(is_exponent(x));
            } else {
                assert(!is_exponent(x));
            }
        }
        r
    }
}

/// Tests whether the bytes of `t` from `from` on form a number.
fn check_number(t: &Vec<u8>, from: usize) -> (r: bool)
    requires
        from <= t@.len(),
    ensures
        r == is_number(t@.skip(from as int)),
{
    let ghost b = t@.skip(from as int);
    let len = t.len();
    let mut i: usize = from;
    while i < len && t[i] != 101u8 && t[i] != 69u8
        invariant
            from <= i <= len == t@.len(),
            forall|k: int| from <= k < i ==> t@[k] != 101 && t@[k] != 69,
        decreases len - i,
    {
        i = i + 1;
    }
    proof {
        assert(forall|k: int| 0 <= k < len - from ==> #[trigger] b[k] == t@[k + from]);
    }
    if i == len {
        // No exponent marker: the whole field is a mantissa or nothing.
        let r = check_mantissa(t, from, len);
        proof {
            assert(b =~= t@.subrange(from as int, len as int));
            if !r && is_number(b) {
                let e = choose|e: int|
                    0 <= e < b.len() && (#[trigger] b[e] == 101 || b[e] == 69) && is_mantissa(
                        b.take(e),
                    ) && is_exponent(b.skip(e + 1));
            }
        }
        r
    } else {
        let r = check_mantissa(t, from, i) && check_exponent(t, i + 1, len);
        proof {
            let p = i - from;
            assert(b[p] == 101 || b[p] == 69);
            assert(b.take(p) =~= t@.subrange(from as int, i as int));
            assert(b.skip(p + 1) =~= t@.subrange(i + 1, len as int));
            if r {
                assert(is_number(b));
            } else {
                if is_number(b) {
                    if is_mantissa(b) {
                        lemma_mantissa_bytes(b, p);
                    } else {
                        let e = choose|e: int|
                            0 <= e < b.len() && (#[trigger] b[e] == 101 || b[e] == 69)
                                && is_mantissa(b.take(e)) && is_exponent(b.skip(e + 1));
                        assert(e >= p) by {
                            if e < p {
                                assert(t@[e + from] != 101 && t@[e + from] != 69);
                            }
                        }
                        assert(e == p) by {
                            if e > p {
                                assert(b.take(e)[p] == b[p]);
                                lemma_mantissa_bytes(b.take(e), p);
                            }
                        }
                    }
                }
            }
        }
        r
    }
}

/// The value of a digit sequence read as a decimal number.
pub open spec fn digits_val(t: Seq<u8>) -> int
    decreases t.len(),
{
    if t.len() == 0 {
        0
    } else {
        10 * digits_val(t.drop_last()) + (t.last() - 48)
    }
}

/// A digit sequence's value is nonnegative.
pub proof fn lemma_digits_val_nonneg(t: Seq<u8>)
    requires
        all_digits(t),
    ensures
        digits_val(t) >= 0,
    decreases t.len(),
{
    if t.len() > 0 {
        assert(all_digits(t.drop_last())) by {
            assert(forall|i: int| 0 <= i < t.len() - 1 ==> #[trigger] t.drop_last()[i] == t[i]);
        }
        lemma_digits_val_nonneg(t.drop_last());
    }
}

/// Reading more digits never shrinks the value.
pub proof fn lemma_digits_val_prefix(t: Seq<u8>, j: int)
    requires
        all_digits(t),
        0 <= j <= t.len(),
    ensures
        digits_val(t) >= digits_val(t.take(j)),
    decreases t.len(),
{
    if j < t.len() {
        assert(all_digits(t.drop_last())) by {
            assert(forall|i: int| 0 <= i < t.len() - 1 ==> #[trigger] t.drop_last()[i] == t[i]);
        }
        lemma_digits_val_nonneg(t.drop_last());
        lemma_digits_val_nonneg(t);
        lemma_digits_val_prefix(t.drop_last(), j);
        assert(t.drop_last().take(j) =~= t.take(j));
        assert(is_digit(t.last()));
    } else {
        assert(t.take(j) =~= t);
    }
}

/// The length of the leading face-index field of a token: the bytes before
/// the first `/`, or the whole token if it has none.
pub open spec fn slash_head_len(t: Seq<u8>) -> nat
    decreases t.len(),
{
    if t.len() == 0 {
        0
    } else if t[0] == 47 {
        0
    } else {
        1 + slash_head_len(t.drop_first())
    }
}

/// The leading field is never longer than the token.
pub proof fn lemma_slash_head_len_le(t: Seq<u8>)
    ensures
        slash_head_len(t) <= t.len(),
    decreases t.len(),
{
    if t.len() > 0 && t[0] != 47 {
        lemma_slash_head_len_le(t.drop_first());
    }
}

/// The length of the leading field is the position of the first `/`.
pub proof fn lemma_slash_head_len_is(t: Seq<u8>, n: int)
    requires
        0 <= n <= t.len(),
        forall|i: int| 0 <= i < n ==> t[i] != 47,
        n == t.len() || t[n] == 47,
    ensures
        slash_head_len(t) == n,
    decreases n,
{
    if n > 0 {
        lemma_slash_head_len_is(t.drop_first(), n - 1);
    }
}

/// The digits field that `face_index_of` reads is the token's slice from
/// `start` to the end of its leading field.
proof fn lemma_reconstruct_face_field(t: Seq<u8>, hend: int, start: int, d: Seq<u8>)
    requires
        0 <= hend <= t.len(),
        hend == slash_head_len(t),
        hend >= 1 && t[0] == 43 ==> start == 1,
        !(hend >= 1 && t[0] == 43) ==> start == 0,
        d == t.subrange(start, hend),
    ensures
        ({
            let head = t.take(slash_head_len(t) as int);
            let fd = if head.len() >= 1 && head[0] == 43 {
                head.skip(1)
            } else {
                head
            };
            fd == d
        }),
{
    let head = t.take(slash_head_len(t) as int);
    assert(forall|k: int| 0 <= k < hend ==> #[trigger] head[k] == t[k]);
    if head.len() >= 1 && head[0] == 43 {
        assert(head.skip(1) =~= t.subrange(1, hend));
    } else {
        assert(head =~= t.subrange(0, hend));
    }
}

/// The face index a token carries: its bytes before the first `/`, read as
/// an unsigned decimal number with an optional leading `+`, as
/// `usize::from_str` reads it. `None` where a digit is missing, a byte is
/// not a digit, or the value does not fit in `usize`.
pub open spec fn face_index_of(t: Seq<u8>) -> Option<int> {
    let head = t.take(slash_head_len(t) as int);
    let d = if head.len() >= 1 && head[0] == 43 {
        head.skip(1)
    } else {
        head
    };
    if d.len() >= 1 && all_digits(d) && digits_val(d) <= usize::MAX as int {
        Some(digits_val(d))
    } else {
        None
    }
}

/// Reads the face-index field of a token, `None` exactly where
/// `face_index_of` is `None`.
fn parse_face_index(t: &Vec<u8>) -> (r: Option<usize>)
    ensures
        r is Some <==> face_index_of(t@) is Some,
        r is Some ==> r.unwrap() as int == face_index_of(t@).unwrap(),
{
    let len = t.len();
    let mut hend: usize = 0;
    while hend < len && t[hend] != 47u8
        invariant
            0 <= hend <= len == t@.len(),
            forall|i: int| 0 <= i < hend ==> t@[i] != 47,
        decreases len - hend,
    {
        hend = hend + 1;
    }
    proof {
        lemma_slash_head_len_is(t@, hend as int);
    }
    let ghost head = t@.take(hend as int);
    proof {
        assert(forall|k: int| 0 <= k < hend ==> #[trigger] head[k] == t@[k]);
    }
    let start: usize = if hend >= 1 && t[0] == 43u8 {
        1
    } else {
        0
    };
    let ghost d = if head.len() >= 1 && head[0] == 43 {
        head.skip(1)
    } else {
        head
    };
    proof {
        assert(d =~= t@.subrange(start as int, hend as int));
        assert(forall|k: int| 0 <= k < d.len() ==> #[trigger] d[k] == t@[start + k]);
    }
    if hend == start {
        return None;
    }
    let mut acc: usize = 0;
    let mut i: usize = start;
    while i < hend
        invariant
            start <= i <= hend <= len == t@.len(),
            d == t@.subrange(start as int, hend as int),
            hend as int == slash_head_len(t@),
            hend >= 1 && t@[0] == 43 ==> start == 1,
            !(hend >= 1 && t@[0] == 43) ==> start == 0,
            d.len() == hend - start,
            forall|k: int| 0 <= k < i - start ==> is_digit(#[trigger] d[k]),
            acc as int == digits_val(d.take(i - start)),
        decreases hend - i,
    {
        let b = t[i];
        proof {
            assert(d[i - start] == t@[i as int]);
        }
        if !is_digit_byte(b) {
            proof {
                lemma_reconstruct_face_field(t@, hend as int, start as int, d);
            }
            return None;
        }
        let dig = (b - 48u8) as usize;
        proof {
            assert(forall|k: int| 0 <= k < i + 1 - start ==> is_digit(#[trigger] d[k]));
            assert(all_digits(d.take(i + 1 - start))) by {
                assert(forall|k: int|
                    0 <= k < i + 1 - start ==> #[trigger] d.take(i + 1 - start)[k] == d[k]);
            }
            assert(d.take(i + 1 - start).drop_last() =~= d.take(i - start));
            assert(d.take(i + 1 - start).last() == d[i - start]);
        }
        if acc > (usize::MAX - dig) / 10 {
            // The value overflows: with this digit it already exceeds the
            // largest `usize`, and more digits cannot bring it back down.
            proof {
                vstd::arithmetic::div_mod::lemma_fundamental_div_mod(
                    usize::MAX - dig,
                    10,
                );
                assert(digits_val(d.take(i + 1 - start)) == 10 * (acc as int) + dig);
                assert(10 * (acc as int) + dig > usize::MAX);
                if all_digits(d) {
                    lemma_digits_val_prefix(d, i + 1 - start);
                }
                lemma_reconstruct_face_field(t@, hend as int, start as int, d);
            }
            return None;
        }
        proof {
            vstd::arithmetic::div_mod::lemma_fundamental_div_mod(usize::MAX - dig, 10);
        }
        acc = acc * 10 + dig;
        i = i + 1;
    }
    proof {
        assert(d.take(hend - start) =~= d);
        assert(all_digits(d));
        assert(face_index_of(t@) == Some(digits_val(d)));
    }
    Some(acc)
}

/// Whether the line's first token is `v`, selecting a vertex record.
pub open spec fn is_vertex_line(l: Seq<u8>) -> bool {
    tokens_of(l).len() >= 1 && tokens_of(l)[0] == seq![118u8]
}

/// Whether the line's first token is `f`, selecting a face record.
pub open spec fn is_face_line(l: Seq<u8>) -> bool {
    tokens_of(l).len() >= 1 && tokens_of(l)[0] == seq![102u8]
}

/// A well-formed vertex line: at least three fields after `v`, the first
/// three of them floating-point fields.
pub open spec fn vertex_line_ok(l: Seq<u8>) -> bool {
    let tk = tokens_of(l);
    tk.len() >= 4 && is_float_token(tk[1]) && is_float_token(tk[2]) && is_float_token(tk[3])
}

/// A well-formed face line: at least three fields after `f`, every field
/// carrying a readable index before its first `/`.
pub open spec fn face_line_ok(l: Seq<u8>) -> bool {
    let tk = tokens_of(l);
    tk.len() >= 4 && (forall|i: int| 1 <= i < tk.len() ==> face_index_of(#[trigger] tk[i]) is Some)
}

/// Whether a line parses: vertex and face lines must be well formed, every
/// other line is ignored.
pub open spec fn line_ok(l: Seq<u8>) -> bool {
    if is_vertex_line(l) {
        vertex_line_ok(l)
    } else if is_face_line(l) {
        face_line_ok(l)
    } else {
        true
    }
}

/// The three coordinate fields of a vertex line.
pub open spec fn vertex_fields_of_line(l: Seq<u8>) -> (Seq<u8>, Seq<u8>, Seq<u8>) {
    (tokens_of(l)[1], tokens_of(l)[2], tokens_of(l)[3])
}

/// The face a face line carries: the indices of its first three fields.
pub open spec fn face_of_line(l: Seq<u8>) -> Face {
    let tk = tokens_of(l);
    Face {
        a: face_index_of(tk[1]).unwrap() as usize,
        b: face_index_of(tk[2]).unwrap() as usize,
        c: face_index_of(tk[3]).unwrap() as usize,
    }
}

/// What a line adds to the vertex list.
pub open spec fn vertex_contribution(l: Seq<u8>) -> Seq<(Seq<u8>, Seq<u8>, Seq<u8>)> {
    if is_vertex_line(l) && vertex_line_ok(l) {
        seq![vertex_fields_of_line(l)]
    } else {
        Seq::empty()
    }
}

/// What a line adds to the face list.
pub open spec fn face_contribution(l: Seq<u8>) -> Seq<Face> {
    if is_face_line(l) && face_line_ok(l) {
        seq![face_of_line(l)]
    } else {
        Seq::empty()
    }
}

/// The coordinate fields of all vertex lines, in order.
pub open spec fn vertex_fields_of(ls: Seq<Seq<u8>>) -> Seq<(Seq<u8>, Seq<u8>, Seq<u8>)>
    decreases ls.len(),
{
    if ls.len() == 0 {
        Seq::empty()
    } else {
        vertex_fields_of(ls.drop_last()) + vertex_contribution(ls.last())
    }
}

/// The faces of all face lines, in order.
pub open spec fn faces_of(ls: Seq<Seq<u8>>) -> Seq<Face>
    decreases ls.len(),
{
    if ls.len() == 0 {
        Seq::empty()
    } else {
        faces_of(ls.drop_last()) + face_contribution(ls.last())
    }
}

/// Whether every line of the text parses.
pub open spec fn all_lines_ok(s: Seq<u8>) -> bool {
    forall|i: int| 0 <= i < split_lines(s).len() ==> line_ok(#[trigger] split_lines(s)[i])
}

/// Whether every face of the text names vertices the text defines.
pub open spec fn all_faces_in_range(s: Seq<u8>) -> bool {
    forall|j: int|
        0 <= j < faces_of(split_lines(s)).len() ==> (#[trigger] faces_of(split_lines(s))[j]).in_range(
            vertex_fields_of(split_lines(s)).len() as int,
        )
}

/// Tests whether a token is a floating-point field.
fn check_float_token(t: &Vec<u8>) -> (r: bool)
    ensures
        r == is_float_token(t@),
{
    let len = t.len();
    let start: usize = if len >= 1 && (t[0] == 43u8 || t[0] == 45u8) {
        1
    } else {
        0
    };
    proof {
        if start == 0 {
            assert(unsigned_part(t@) =~= t@.skip(0));
        }
        assert(unsigned_part(t@) == t@.skip(start as int));
    }
    let r = is_keyword_from(t, start);
    if r {
        true
    } else {
        check_number(t, start)
    }
}

/// The three coordinate fields of one vertex record, as raw token bytes.
/// Each accepted token follows the floating-point grammar and is turned
/// into a number outside this crate.
#[derive(PartialEq, Eq, Debug)]
pub struct VertexText {
    /// The x-coordinate field.
    pub x: Vec<u8>,
    /// The y-coordinate field.
    pub y: Vec<u8>,
    /// The z-coordinate field.
    pub z: Vec<u8>,
}

impl View for VertexText {
    type V = (Seq<u8>, Seq<u8>, Seq<u8>);

    open spec fn view(&self) -> (Seq<u8>, Seq<u8>, Seq<u8>) {
        (self.x@, self.y@, self.z@)
    }
}

/// What loading fails with.
#[derive(Clone, Copy, PartialEq, Eq, Structural, Debug)]
pub enum MeshError {
    /// A vertex or face line with a missing or unreadable field; `line` is
    /// the 0-based position of the first such line.
    ParseError { line: usize },
    /// A face index outside the vertex list; `face` is the 0-based position
    /// of the first such face.
    ValidationError { face: usize },
}

/// A mesh text's records: the vertex coordinate fields and the faces, in
/// file order, with every face index checked against the vertex count.
#[derive(PartialEq, Eq, Debug)]
pub struct MeshText {
    /// The coordinate fields of each vertex record.
    pub vertices: Vec<VertexText>,
    /// The faces, exactly as their first three index fields give them.
    pub faces: Vec<Face>,
}

impl MeshText {
    /// Parses mesh text. Returns the records if and only if every vertex
    /// and face line is well formed and every face index names a vertex;
    /// otherwise the first offending line or face, parse errors first.
    pub fn parse(data: &[u8]) -> (r: Result<MeshText, MeshError>)
        ensures
            r is Ok <==> all_lines_ok(data@) && all_faces_in_range(data@),
            r matches Ok(m) ==> m.vertices@.map_values(|v: VertexText| v@) == vertex_fields_of(
                split_lines(data@),
            ) && m.faces@ == faces_of(split_lines(data@)),
            r matches Err(MeshError::ParseError { line }) ==> line < split_lines(data@).len()
                && !line_ok(split_lines(data@)[line as int]) && (forall|k: int|
                0 <= k < line ==> line_ok(#[trigger] split_lines(data@)[k])),
            r matches Err(MeshError::ValidationError { face }) ==> all_lines_ok(data@) && face
                < faces_of(split_lines(data@)).len() && !faces_of(split_lines(data@))[face as int].in_range(
                vertex_fields_of(split_lines(data@)).len() as int,
            ) && (forall|k: int|
                0 <= k < face ==> (#[trigger] faces_of(split_lines(data@))[k]).in_range(
                    vertex_fields_of(split_lines(data@)).len() as int,
                )),
    {
        let lines = split_into_lines(data);
        let ghost lns = split_lines(data@);
        let mut vertices: Vec<VertexText> = Vec::new();
        let mut faces: Vec<Face> = Vec::new();
        proof {
            assert(vertices@.map_values(|v: VertexText| v@) =~= Seq::<
                (Seq<u8>, Seq<u8>, Seq<u8>),
            >::empty());
            assert(lns.take(0) =~= Seq::<Seq<u8>>::empty());
        }
        let mut li: usize = 0;
        while li < lines.len()
            invariant
                lines@.map_values(|l: Vec<u8>| l@) == lns,
                lns == split_lines(data@),
                0 <= li <= lines@.len(),
                forall|k: int| 0 <= k < li ==> line_ok(#[trigger] lns[k]),
                vertices@.map_values(|v: VertexText| v@) == vertex_fields_of(
                    lns.take(li as int),
                ),
                faces@ == faces_of(lns.take(li as int)),
            decreases lines@.len() - li,
        {
            let ghost cur = lns[li as int];
            proof {
                assert(lines@[li as int]@ == lns[li as int]);
                assert(lns.take(li + 1).drop_last() =~= lns.take(li as int));
                assert(lns.take(li + 1).last() == cur);
            }
            let mut toks = tokenize(&lines[li]);
            let ghost tks = tokens_of(cur);
            proof {
                assert(forall|k: int| 0 <= k < toks@.len() ==> #[trigger] toks@[k]@ == tks[k]);
            }
            let is_v = toks.len() >= 1 && toks[0].len() == 1 && toks[0][0] == 118u8;
            let is_f = !is_v && toks.len() >= 1 && toks[0].len() == 1 && toks[0][0] == 102u8;
            proof {
                if toks.len() >= 1 {
                    if is_v {
                        assert(tks[0] =~= seq![118u8]);
                    } else {
                        assert(tks[0] != seq![118u8]);
                    }
                    if is_f {
                        assert(tks[0] =~= seq![102u8]);
                    } else if !is_v {
                        assert(tks[0] != seq![102u8]);
                    }
                }
                assert(is_v == is_vertex_line(cur));
                assert(is_f == is_face_line(cur));
            }
            if is_v {
                if toks.len() < 4 {
                    return Err(MeshError::ParseError { line: li });
                }
                if !check_float_token(&toks[1]) {
                    return Err(MeshError::ParseError { line: li });
                }
                if !check_float_token(&toks[2]) {
                    return Err(MeshError::ParseError { line: li });
                }
                if !check_float_token(&toks[3]) {
                    return Err(MeshError::ParseError { line: li });
                }
                let x = toks.remove(1);
                let y = toks.remove(1);
                let z = toks.remove(1);
                vertices.push(VertexText { x, y, z });
                proof {
                    assert(vertex_fields_of(lns.take(li + 1)) == vertex_fields_of(
                        lns.take(li as int),
                    ) + seq![vertex_fields_of_line(cur)]);
                    assert(faces_of(lns.take(li + 1)) =~= faces_of(lns.take(li as int)));
                    assert(vertices@.map_values(|v: VertexText| v@) =~= vertex_fields_of(
                        lns.take(li as int),
                    ) + seq![vertex_fields_of_line(cur)]);
                }
            } else if is_f {
                if toks.len() < 4 {
                    return Err(MeshError::ParseError { line: li });
                }
                let mut a: usize = 0;
                let mut b: usize = 0;
                let mut c: usize = 0;
                let mut k: usize = 1;
                let ntoks = toks.len();
                while k < ntoks
                    invariant
                        1 <= k <= ntoks == toks@.len(),
                        toks@.len() >= 4,
                        lns == split_lines(data@),
                        li < lns.len(),
                        cur == lns[li as int],
                        tks == tokens_of(cur),
                        toks@.len() == tks.len(),
                        is_face_line(cur),
                        !is_vertex_line(cur),
                        forall|kk: int| 0 <= kk < li ==> line_ok(#[trigger] lns[kk]),
                        forall|j: int| 0 <= j < toks@.len() ==> #[trigger] toks@[j]@ == tks[j],
                        forall|j: int|
                            1 <= j < k ==> face_index_of(#[trigger] tks[j]) is Some,
                        k >= 2 ==> a as int == face_index_of(tks[1]).unwrap(),
                        k >= 3 ==> b as int == face_index_of(tks[2]).unwrap(),
                        k >= 4 ==> c as int == face_index_of(tks[3]).unwrap(),
                    decreases ntoks - k,
                {
                    match parse_face_index(&toks[k]) {
                        None => {
                            return Err(MeshError::ParseError { line: li });
                        },
                        Some(v) => {
                            if k == 1 {
                                a = v;
                            } else if k == 2 {
                                b = v;
                            } else if k == 3 {
                                c = v;
                            }
                        },
                    }
                    k = k + 1;
                }
                faces.push(Face { a, b, c });
                proof {
                    assert(face_line_ok(cur));
                    assert(Face { a, b, c } == face_of_line(cur));
                    assert(faces_of(lns.take(li + 1)) == faces_of(lns.take(li as int)) + seq![
                        face_of_line(cur),
                    ]);
                    assert(faces@ =~= faces_of(lns.take(li as int)) + seq![face_of_line(cur)]);
                    assert(vertex_fields_of(lns.take(li + 1)) =~= vertex_fields_of(
                        lns.take(li as int),
                    ));
                }
            } else {
                proof {
                    assert(line_ok(cur));
                    assert(vertex_fields_of(lns.take(li + 1)) =~= vertex_fields_of(
                        lns.take(li as int),
                    ));
                    assert(faces_of(lns.take(li + 1)) =~= faces_of(lns.take(li as int)));
                }
            }
            li = li + 1;
        }
        proof {
            assert(lns.take(lines@.len() as int) =~= lns);
        }
        let nv = vertices.len();
        let mut j: usize = 0;
        let nf = faces.len();
        while j < nf
            invariant
                0 <= j <= nf == faces@.len(),
                nv == vertices@.len(),
                all_lines_ok(data@),
                vertices@.map_values(|v: VertexText| v@) == vertex_fields_of(lns),
                faces@ == faces_of(lns),
                lns == split_lines(data@),
                forall|k: int| 0 <= k < j ==> (#[trigger] faces@[k]).in_range(nv as int),
            decreases nf - j,
        {
            let f = faces[j];
            if f.a == 0 || f.a > nv || f.b == 0 || f.b > nv || f.c == 0 || f.c > nv {
                return Err(MeshError::ValidationError { face: j });
            }
            j = j + 1;
        }
        Ok(MeshText { vertices, faces })
    }
}

/// A 3D mesh: vertices, the faces connecting them into triangles, and the
/// mesh's rotation, scale and translation in 3D space.
pub struct Mesh {
    /// The vertices defining the mesh's geometry.
    pub vertices: Vec<Vec3Bits>,
    /// The faces connecting the vertices into triangles, by 1-based index.
    pub faces: Vec<Face>,
    /// Rotation around the x, y and z axes.
    pub rotation: Vec3Bits,
    /// Scale along the x, y and z axes.
    pub scale: Vec3Bits,
    /// Translation in 3D space.
    pub translation: Vec3Bits,
}

/// The vertices of a unit cube centered at the origin: each coordinate is
/// one or minus one.
pub open spec fn cube_vertices() -> Seq<Vec3Bits> {
    let n = F32_NEG_ONE_BITS;
    let p = F32_ONE_BITS;
    seq![
        Vec3Bits { x: n, y: n, z: n },
        Vec3Bits { x: n, y: p, z: n },
        Vec3Bits { x: p, y: p, z: n },
        Vec3Bits { x: p, y: n, z: n },
        Vec3Bits { x: p, y: p, z: p },
        Vec3Bits { x: p, y: n, z: p },
        Vec3Bits { x: n, y: p, z: p },
        Vec3Bits { x: n, y: n, z: p },
    ]
}

/// The faces of a cube: two triangles for each of its six sides.
pub open spec fn cube_faces() -> Seq<Face> {
    seq![
        Face { a: 1, b: 2, c: 3 },
        Face { a: 1, b: 3, c: 4 },
        Face { a: 4, b: 3, c: 5 },
        Face { a: 4, b: 5, c: 6 },
        Face { a: 6, b: 5, c: 7 },
        Face { a: 6, b: 7, c: 8 },
        Face { a: 8, b: 7, c: 2 },
        Face { a: 8, b: 2, c: 1 },
        Face { a: 7, b: 5, c: 3 },
        Face { a: 7, b: 3, c: 2 },
        Face { a: 8, b: 1, c: 4 },
        Face { a: 8, b: 4, c: 6 },
    ]
}

impl Mesh {
    /// Every face of the mesh names vertices the mesh has.
    pub open spec fn wf(self) -> bool {
        forall|i: int|
            0 <= i < self.faces@.len() ==> (#[trigger] self.faces@[i]).in_range(
                self.vertices@.len() as int,
            )
    }

    /// A mesh starts with no rotation, unit scale and no translation.
    pub open spec fn has_default_placement(self) -> bool {
        self.rotation == Vec3Bits::zero() && self.scale == Vec3Bits::unit() && self.translation
            == Vec3Bits::zero()
    }

    /// Builds the unit cube mesh: eight vertices, twelve faces, default
    /// placement.
    pub fn new_cube() -> (m: Mesh)
        ensures
            m.vertices@ == cube_vertices(),
            m.faces@ == cube_faces(),
            m.vertices@.len() == N_CUBE_VERTICES as int,
            m.faces@.len() == N_CUBE_FACES as int,
            m.has_default_placement(),
            m.wf(),
    {
        let n = F32_NEG_ONE_BITS;
        let p = F32_ONE_BITS;
        let mut vertices: Vec<Vec3Bits> = Vec::new();
        vertices.push(Vec3Bits { x: n, y: n, z: n });
        vertices.push(Vec3Bits { x: n, y: p, z: n });
        vertices.push(Vec3Bits { x: p, y: p, z: n });
        vertices.push(Vec3Bits { x: p, y: n, z: n });
        vertices.push(Vec3Bits { x: p, y: p, z: p });
        vertices.push(Vec3Bits { x: p, y: n, z: p });
        vertices.push(Vec3Bits { x: n, y: p, z: p });
        vertices.push(Vec3Bits { x: n, y: n, z: p });
        let mut faces: Vec<Face> = Vec::new();
        faces.push(Face { a: 1, b: 2, c: 3 });
        faces.push(Face { a: 1, b: 3, c: 4 });
        faces.push(Face { a: 4, b: 3, c: 5 });
        faces.push(Face { a: 4, b: 5, c: 6 });
        faces.push(Face { a: 6, b: 5, c: 7 });
        faces.push(Face { a: 6, b: 7, c: 8 });
        faces.push(Face { a: 8, b: 7, c: 2 });
        faces.push(Face { a: 8, b: 2, c: 1 });
        faces.push(Face { a: 7, b: 5, c: 3 });
        faces.push(Face { a: 7, b: 3, c: 2 });
        faces.push(Face { a: 8, b: 1, c: 4 });
        faces.push(Face { a: 8, b: 4, c: 6 });
        proof {
            assert(vertices@ =~= cube_vertices());
            assert(faces@ =~= cube_faces());
            assert(forall|i: int|
                0 <= i < cube_faces().len() ==> (#[trigger] cube_faces()[i]).in_range(8));
        }
        Mesh {
            vertices,
            faces,
            rotation: Vec3Bits::new(0, 0, 0),
            scale: Vec3Bits::new(F32_ONE_BITS, F32_ONE_BITS, F32_ONE_BITS),
            translation: Vec3Bits::new(0, 0, 0),
        }
    }

    /// Builds a mesh from parsed text records and the coordinates their
    /// vertex fields convert to, one per vertex record. Returns the mesh
    /// exactly when the counts agree and every face index names a vertex;
    /// the mesh starts with default placement.
    pub fn from_text(text: &MeshText, coords: Vec<Vec3Bits>) -> (r: Option<Mesh>)
        ensures
            r is Some <==> coords@.len() == text.vertices@.len() && (forall|i: int|
                0 <= i < text.faces@.len() ==> (#[trigger] text.faces@[i]).in_range(
                    coords@.len() as int,
                )),
            r matches Some(m) ==> m.vertices@ == coords@ && m.faces@ == text.faces@
                && m.has_default_placement() && m.wf(),
    {
        if coords.len() != text.vertices.len() {
            return None;
        }
        let nv = coords.len();
        let mut faces: Vec<Face> = Vec::new();
        let nf = text.faces.len();
        let mut i: usize = 0;
        while i < nf
            invariant
                0 <= i <= nf == text.faces@.len(),
                nv == coords@.len(),
                faces@ == text.faces@.take(i as int),
                forall|k: int| 0 <= k < i ==> (#[trigger] text.faces@[k]).in_range(nv as int),
            decreases nf - i,
        {
            let f = text.faces[i];
            if f.a == 0 || f.a > nv || f.b == 0 || f.b > nv || f.c == 0 || f.c > nv {
                return None;
            }
            faces.push(f);
            proof {
                assert(faces@ =~= text.faces@.take(i + 1));
            }
            i = i + 1;
        }
        proof {
            assert(text.faces@.take(nf as int) =~= text.faces@);
        }
        Some(
            Mesh {
                vertices: coords,
                faces,
                rotation: Vec3Bits::new(0, 0, 0),
                scale: Vec3Bits::new(F32_ONE_BITS, F32_ONE_BITS, F32_ONE_BITS),
                translation: Vec3Bits::new(0, 0, 0),
            },
        )
    }

    /// Resolves the three vertices of the mesh's `i`-th face, turning its
    /// 1-based indices into positions in the vertex sequence.
    pub fn face_vertices(&self, i: usize) -> (vs: [Vec3Bits; 3])
        requires
            self.wf(),
            i < self.faces@.len(),
        ensures
            vs@ == seq![
                self.vertices@[self.faces@[i as int].a - 1],
                self.vertices@[self.faces@[i as int].b - 1],
                self.vertices@[self.faces@[i as int].c - 1],
            ],
    {
        let f = self.faces[i];
        let vs = [self.vertices[f.a - 1], self.vertices[f.b - 1], self.vertices[f.c - 1]];
        proof {
            assert(vs@ =~= seq![
                self.vertices@[self.faces@[i as int].a - 1],
                self.vertices@[self.faces@[i as int].b - 1],
                self.vertices@[self.faces@[i as int].c - 1],
            ]);
        }
        vs
    }
}

} // verus!
