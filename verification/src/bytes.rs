//! Byte strings: splitting on a separator, the lexicographic order, and slices of text.

use vstd::prelude::*;
use vstd::string::StringSliceAdditionalSpecFns;
use vstd::utf8::*;

verus! {

/// The pieces of `s` between occurrences of `sep`. There is always at least one piece, and a
/// separator at either end gives an empty piece there.
pub open spec fn split(s: Seq<u8>, sep: u8) -> Seq<Seq<u8>>
    decreases s.len(),
{
    if s.len() == 0 {
        seq![Seq::empty()]
    } else {
        let before = split(s.drop_last(), sep);
        if s.last() == sep {
            before.push(Seq::empty())
        } else {
            before.update(before.len() - 1, before.last().push(s.last()))
        }
    }
}

/// The parts laid end to end.
pub open spec fn concat(parts: Seq<Seq<u8>>) -> Seq<u8>
    decreases parts.len(),
{
    if parts.len() == 0 {
        Seq::empty()
    } else {
        concat(parts.drop_last()) + parts.last()
    }
}

/// `a` comes strictly before `b` in the lexicographic order of byte strings.
pub open spec fn lex_lt(a: Seq<u8>, b: Seq<u8>) -> bool
    decreases a.len(),
{
    if b.len() == 0 {
        false
    } else if a.len() == 0 {
        true
    } else if a[0] != b[0] {
        a[0] < b[0]
    } else {
        lex_lt(a.drop_first(), b.drop_first())
    }
}

/// The UTF-8 bytes of each text.
pub open spec fn bytes_of(texts: Seq<&str>) -> Seq<Seq<u8>> {
    Seq::new(texts.len(), |i: int| texts[i].spec_bytes())
}

/// A split gives one piece more than there are separators, and the pieces have the bytes
/// that are no separators.
pub proof fn lemma_split_len(s: Seq<u8>, sep: u8)
    ensures
        concat(split(s, sep)).len() + split(s, sep).len() == s.len() + 1,
    decreases s.len(),
{
    if s.len() == 0 {
        reveal_with_fuel(concat, 2);
        assert(split(s, sep).drop_last() =~= Seq::<Seq<u8>>::empty());
    } else {
        let before = split(s.drop_last(), sep);
        lemma_split_nonempty(s.drop_last(), sep);
        lemma_split_len(s.drop_last(), sep);
        if s.last() == sep {
            assert(before.push(Seq::empty()).drop_last() =~= before);
        } else {
            let longer = before.last().push(s.last());
            let pieces = before.update(before.len() - 1, longer);
            assert(pieces.drop_last() =~= before.drop_last());
        }
    }
}

/// A split gives one piece at least.
pub proof fn lemma_split_nonempty(s: Seq<u8>, sep: u8)
    ensures
        split(s, sep).len() >= 1,
    decreases s.len(),
{
    if s.len() > 0 {
        lemma_split_nonempty(s.drop_last(), sep);
    }
}

/// One part more stands at the end of the whole.
pub proof fn lemma_concat_push(parts: Seq<Seq<u8>>, part: Seq<u8>)
    ensures
        concat(parts.push(part)) == concat(parts) + part,
{
    assert(parts.push(part).drop_last() =~= parts);
}

/// The first parts, laid end to end, are what all the parts begin with.
pub proof fn lemma_concat_begins(parts: Seq<Seq<u8>>, n: int)
    requires
        0 <= n <= parts.len(),
    ensures
        concat(parts.take(n)).is_prefix_of(concat(parts)),
    decreases parts.len() - n,
{
    if n == parts.len() {
        assert(parts.take(n) =~= parts);
    } else {
        assert(parts.drop_last().take(n) =~= parts.take(n));
        lemma_concat_begins(parts.drop_last(), n);
    }
}

/// Part `k` stands in the whole where the parts before it end.
pub proof fn lemma_concat_part(parts: Seq<Seq<u8>>, k: int)
    requires
        0 <= k < parts.len(),
    ensures
        concat(parts.take(k + 1)) == concat(parts.take(k)) + parts[k],
        concat(parts.take(k)).len() + parts[k].len() <= concat(parts).len(),
        parts[k].is_prefix_of(concat(parts).skip(concat(parts.take(k)).len() as int)),
{
    assert(parts.take(k + 1).drop_last() =~= parts.take(k));
    lemma_concat_begins(parts, k + 1);
    let whole = concat(parts);
    let start = concat(parts.take(k)).len() as int;
    let upto = concat(parts.take(k + 1));
    assert(upto =~= whole.subrange(0, upto.len() as int));
    assert forall|i: int| 0 <= i < parts[k].len() implies parts[k][i] == whole.skip(start)[i] by {
        assert(upto[start + i] == parts[k][i]);
        assert(whole.subrange(0, upto.len() as int)[start + i] == whole[start + i]);
    }
    assert(parts[k] =~= whole.skip(start).subrange(0, parts[k].len() as int));
}

/// Parts of one width stand at the multiples of the width.
pub proof fn lemma_concat_fixed(parts: Seq<Seq<u8>>, width: int, k: int)
    requires
        0 < width,
        forall|i: int| 0 <= i < parts.len() ==> (#[trigger] parts[i]).len() == width,
        0 <= k <= parts.len(),
    ensures
        concat(parts.take(k)).len() == width * k,
    decreases k,
{
    if k > 0 {
        lemma_concat_fixed(parts, width, k - 1);
        assert(parts.take(k).drop_last() =~= parts.take(k - 1));
        assert(parts.take(k).last() == parts[k - 1]);
        assert(width * (k - 1) + width == width * k) by (nonlinear_arith);
    } else {
        assert(parts.take(0) =~= Seq::<Seq<u8>>::empty());
    }
}

/// No byte string comes before itself.
pub proof fn lemma_lex_lt_irreflexive(a: Seq<u8>)
    ensures
        !lex_lt(a, a),
    decreases a.len(),
{
    if a.len() > 0 {
        lemma_lex_lt_irreflexive(a.drop_first());
    }
}

/// Of two byte strings at most one comes before the other.
pub proof fn lemma_lex_lt_asymmetric(a: Seq<u8>, b: Seq<u8>)
    requires
        lex_lt(a, b),
    ensures
        !lex_lt(b, a),
    decreases a.len(),
{
    if a.len() > 0 && b.len() > 0 && a[0] == b[0] {
        lemma_lex_lt_asymmetric(a.drop_first(), b.drop_first());
    }
}

/// What comes before a byte string comes before all that it comes before.
pub proof fn lemma_lex_lt_transitive(a: Seq<u8>, b: Seq<u8>, c: Seq<u8>)
    requires
        lex_lt(a, b),
        lex_lt(b, c),
    ensures
        lex_lt(a, c),
    decreases a.len(),
{
    if a.len() > 0 && b.len() > 0 && c.len() > 0 && a[0] == b[0] && b[0] == c[0] {
        lemma_lex_lt_transitive(a.drop_first(), b.drop_first(), c.drop_first());
    }
}

/// Any two byte strings are equal or one comes before the other.
pub proof fn lemma_lex_total(a: Seq<u8>, b: Seq<u8>)
    ensures
        a == b || lex_lt(a, b) || lex_lt(b, a),
    decreases a.len(),
{
    if a.len() > 0 && b.len() > 0 && a[0] == b[0] {
        lemma_lex_total(a.drop_first(), b.drop_first());
        if a.drop_first() == b.drop_first() {
            assert(a =~= seq![a[0]] + a.drop_first());
            assert(b =~= seq![b[0]] + b.drop_first());
        }
    } else if a.len() == 0 && b.len() == 0 {
        assert(a =~= b);
    }
}

/// Two byte strings that agree on their first `n` bytes compare as what follows.
pub proof fn lemma_lex_lt_skip(a: Seq<u8>, b: Seq<u8>, n: int)
    requires
        0 <= n <= a.len(),
        n <= b.len(),
        a.take(n) == b.take(n),
    ensures
        lex_lt(a, b) == lex_lt(a.skip(n), b.skip(n)),
    decreases n,
{
    if n == 0 {
        assert(a.skip(0) =~= a);
        assert(b.skip(0) =~= b);
    } else {
        assert(a[0] == a.take(n)[0]);
        assert(b[0] == b.take(n)[0]);
        assert(a.drop_first().take(n - 1) =~= a.take(n).drop_first());
        assert(b.drop_first().take(n - 1) =~= b.take(n).drop_first());
        lemma_lex_lt_skip(a.drop_first(), b.drop_first(), n - 1);
        assert(a.drop_first().skip(n - 1) =~= a.skip(n));
        assert(b.drop_first().skip(n - 1) =~= b.skip(n));
    }
}

/// Whether `a` comes strictly before `b` in the lexicographic order.
pub fn bytes_lt(a: &[u8], b: &[u8]) -> (before: bool)
    ensures
        before == lex_lt(a@, b@),
{
    let mut i: usize = 0;
    while i < a.len() && i < b.len()
        invariant
            i <= a.len(),
            i <= b.len(),
            a@.take(i as int) == b@.take(i as int),
        decreases a.len() - i,
    {
        if a[i] != b[i] {
            proof {
                lemma_lex_lt_skip(a@, b@, i as int);
            }
            return a[i] < b[i];
        }
        assert(a@.take(i + 1) =~= a@.take(i as int).push(a@[i as int]));
        assert(b@.take(i + 1) =~= b@.take(i as int).push(b@[i as int]));
        i += 1;
    }
    proof {
        lemma_lex_lt_skip(a@, b@, i as int);
    }
    i < b.len()
}

/// Whether `a` and `b` hold the same bytes.
pub fn bytes_eq(a: &[u8], b: &[u8]) -> (same: bool)
    ensures
        same == (a@ == b@),
{
    if a.len() != b.len() {
        return false;
    }
    let mut i: usize = 0;
    while i < a.len()
        invariant
            i <= a.len(),
            a.len() == b.len(),
            a@.take(i as int) == b@.take(i as int),
        decreases a.len() - i,
    {
        if a[i] != b[i] {
            return false;
        }
        assert(a@.take(i + 1) =~= a@.take(i as int).push(a@[i as int]));
        assert(b@.take(i + 1) =~= b@.take(i as int).push(b@[i as int]));
        i += 1;
    }
    assert(a@ =~= a@.take(i as int));
    assert(b@ =~= b@.take(i as int));
    true
}

/// The part of `text` from byte `from` up to byte `to`. Both must fall between characters.
pub fn slice_between<'a>(text: &'a str, from: usize, to: usize) -> (piece: &'a str)
    requires
        from <= to <= text.spec_bytes().len(),
        is_char_boundary(text.spec_bytes(), from as int),
        is_char_boundary(text.spec_bytes(), to as int),
    ensures
        piece.spec_bytes() == text.spec_bytes().subrange(from as int, to as int),
{
    let head = text.split_at(to).0;
    proof {
        encode_utf8_valid_utf8(text@);
        encode_utf8_valid_utf8(head@);
        if from < to {
            is_char_boundary_iff_not_is_continuation_byte(text.spec_bytes(), from as int);
            is_char_boundary_iff_not_is_continuation_byte(head.spec_bytes(), from as int);
        } else {
            is_char_boundary_start_end_of_seq(head.spec_bytes());
        }
    }
    let piece = head.split_at(from).1;
    assert(piece.spec_bytes() =~= text.spec_bytes().subrange(from as int, to as int));
    piece
}

/// Splits `text` at every byte `sep`, which must be an ASCII character.
pub fn split_text<'a>(text: &'a str, sep: u8) -> (pieces: Vec<&'a str>)
    requires
        sep < 0x80,
    ensures
        bytes_of(pieces@) == split(text.spec_bytes(), sep),
{
    let bytes = text.as_bytes();
    let mut pieces: Vec<&'a str> = Vec::new();
    let mut start: usize = 0;
    let mut i: usize = 0;
    proof {
        encode_utf8_valid_utf8(text@);
        is_char_boundary_start_end_of_seq(bytes@);
        assert(bytes@.take(0) =~= Seq::<u8>::empty());
        assert(bytes_of(pieces@).push(bytes@.subrange(0, 0)) =~= split(bytes@.take(0), sep));
    }
    while i < bytes.len()
        invariant
            bytes@ == text.spec_bytes(),
            valid_utf8(bytes@),
            sep < 0x80,
            start <= i <= bytes.len(),
            is_char_boundary(bytes@, start as int),
            split(bytes@.take(i as int), sep) == bytes_of(pieces@).push(
                bytes@.subrange(start as int, i as int),
            ),
        decreases bytes.len() - i,
    {
        let ghost done = bytes_of(pieces@);
        proof {
            assert(bytes@.take(i + 1).drop_last() =~= bytes@.take(i as int));
            assert(bytes@.take(i + 1).last() == bytes@[i as int]);
        }
        if bytes[i] == sep {
            proof {
                is_char_boundary_iff_not_is_continuation_byte(bytes@, i as int);
            }
            let piece = slice_between(text, start, i);
            pieces.push(piece);
            proof {
                lemma_after_ascii_is_boundary(bytes@, i as int);
                assert(bytes_of(pieces@) =~= done.push(bytes@.subrange(start as int, i as int)));
                assert(bytes@.subrange(i + 1, i + 1) =~= Seq::<u8>::empty());
            }
            start = i + 1;
        } else {
            proof {
                assert(bytes@.subrange(start as int, i as int).push(bytes@[i as int])
                    =~= bytes@.subrange(start as int, i + 1));
                assert(done.push(bytes@.subrange(start as int, i as int)).update(
                    done.len() as int,
                    bytes@.subrange(start as int, i as int).push(bytes@[i as int]),
                ) =~= done.push(bytes@.subrange(start as int, i + 1)));
            }
        }
        i += 1;
    }
    proof {
        is_char_boundary_start_end_of_seq(bytes@);
        assert(bytes@.take(i as int) =~= bytes@);
    }
    let ghost done = bytes_of(pieces@);
    let piece = slice_between(text, start, i);
    pieces.push(piece);
    assert(bytes_of(pieces@) =~= done.push(bytes@.subrange(start as int, i as int)));
    pieces
}

/// In valid UTF-8 a character starts after an ASCII byte, or the text ends there.
pub proof fn lemma_after_ascii_is_boundary(bytes: Seq<u8>, i: int)
    requires
        valid_utf8(bytes),
        0 <= i < bytes.len(),
        bytes[i] < 0x80,
    ensures
        is_char_boundary(bytes, i + 1),
    decreases bytes.len(),
{
    let n = length_of_first_scalar(bytes);
    if i == 0 {
        reveal_with_fuel(is_char_boundary, 2);
    } else if i < n {
        // a byte inside a longer character continues it, so it is no ASCII byte
        assert(is_continuation_byte(bytes[i]));
    } else {
        lemma_after_ascii_is_boundary(pop_first_scalar(bytes), i - n);
    }
}

/// Where the last piece of a split starts: after the last separator, or at the start.
pub open spec fn last_start(s: Seq<u8>, sep: u8) -> int
    decreases s.len(),
{
    if s.len() == 0 {
        0
    } else if s.last() == sep {
        s.len() as int
    } else {
        last_start(s.drop_last(), sep)
    }
}

/// What stands between two character boundaries of valid UTF-8 is valid UTF-8.
pub proof fn lemma_subrange_valid(text: Seq<u8>, from: int, to: int)
    requires
        valid_utf8(text),
        0 <= from <= to <= text.len(),
        is_char_boundary(text, from),
        is_char_boundary(text, to),
    ensures
        valid_utf8(text.subrange(from, to)),
{
    let head = text.subrange(0, to);
    valid_utf8_split(text, to);
    if from < to {
        is_char_boundary_iff_not_is_continuation_byte(text, from);
        is_char_boundary_iff_not_is_continuation_byte(head, from);
    } else {
        is_char_boundary_start_end_of_seq(head);
    }
    valid_utf8_split(head, from);
    assert(head.subrange(from, head.len() as int) =~= text.subrange(from, to));
}

/// The pieces of the first `n` bytes of valid UTF-8, split at an ASCII character: all but
/// the last are valid UTF-8, and the last starts at a character boundary.
proof fn lemma_split_valid_upto(text: Seq<u8>, sep: u8, n: int)
    requires
        valid_utf8(text),
        sep < 0x80,
        0 <= n <= text.len(),
    ensures
        split(text.take(n), sep).len() >= 1,
        forall|i: int|
            0 <= i < split(text.take(n), sep).len() - 1 ==> valid_utf8(
                #[trigger] split(text.take(n), sep)[i],
            ),
        0 <= last_start(text.take(n), sep) <= n,
        is_char_boundary(text, last_start(text.take(n), sep)),
        split(text.take(n), sep).last() == text.subrange(last_start(text.take(n), sep), n),
    decreases n,
{
    if n == 0 {
        is_char_boundary_start_end_of_seq(text);
        assert(text.take(0) =~= Seq::<u8>::empty());
        assert(split(text.take(0), sep).last() =~= text.subrange(0, 0));
    } else {
        lemma_split_valid_upto(text, sep, n - 1);
        assert(text.take(n).drop_last() =~= text.take(n - 1));
        assert(text.take(n).last() == text[n - 1]);
        let before = split(text.take(n - 1), sep);
        let start = last_start(text.take(n - 1), sep);
        if text[n - 1] == sep {
            is_char_boundary_iff_not_is_continuation_byte(text, n - 1);
            lemma_subrange_valid(text, start, n - 1);
            lemma_after_ascii_is_boundary(text, n - 1);
            assert(text.subrange(n, n) =~= Seq::<u8>::empty());
        } else {
            assert(text.subrange(start, n - 1).push(text[n - 1]) =~= text.subrange(start, n));
        }
    }
}

/// The pieces of valid UTF-8, split at an ASCII character, are valid UTF-8.
pub proof fn lemma_split_valid(text: Seq<u8>, sep: u8)
    requires
        valid_utf8(text),
        sep < 0x80,
    ensures
        forall|i: int|
            0 <= i < split(text, sep).len() ==> valid_utf8(#[trigger] split(text, sep)[i]),
{
    let n = text.len() as int;
    lemma_split_valid_upto(text, sep, n);
    assert(text.take(n) =~= text);
    is_char_boundary_start_end_of_seq(text);
    lemma_subrange_valid(text, last_start(text, sep), n);
}

/// What holds no separator is one piece.
pub proof fn lemma_split_whole(s: Seq<u8>, sep: u8)
    requires
        !s.contains(sep),
    ensures
        split(s, sep) == seq![s],
    decreases s.len(),
{
    if s.len() == 0 {
        assert(s =~= Seq::<u8>::empty());
    } else {
        let before = s.drop_last();
        assert forall|i: int| 0 <= i < before.len() implies before[i] != sep by {
            assert(s[i] == before[i]);
            assert(s.contains(s[i]));
        }
        assert(!before.contains(sep));
        lemma_split_whole(before, sep);
        assert(s.contains(s.last()));
        assert(before.push(s.last()) =~= s);
        assert(seq![before].update(0, before.push(s.last())) =~= seq![s]);
    }
}

} // verus!
