//! Line framing over a growing byte buffer.
//!
//! Bytes arrive in arbitrary chunks; a line is everything up to and
//! including a terminator byte `\n` (0x0A). This module defines the
//! mathematical splitting of a byte sequence into its complete lines and
//! proves that draining a buffer chunk by chunk emits exactly the lines of
//! the concatenated input, in order — however the input was chunked.

use vstd::prelude::*;

verus! {

/// The line terminator.
pub const LINE_FEED: u8 = 0x0a;

/// Whether the sequence holds a complete line, that is, a terminator.
pub open spec fn has_line(s: Seq<u8>) -> bool {
    exists|i: int| 0 <= i < s.len() && s[i] == LINE_FEED
}

/// Length of the leading line, terminator included; the whole sequence when
/// no terminator is present.
pub open spec fn line_len(s: Seq<u8>) -> nat
    decreases s.len(),
{
    if s.len() == 0 {
        0
    } else if s[0] == LINE_FEED {
        1
    } else {
        1 + line_len(s.drop_first())
    }
}

/// The leading line of `s`, terminator included.
pub open spec fn first_line(s: Seq<u8>) -> Seq<u8> {
    s.take(line_len(s) as int)
}

/// What remains of `s` after its leading line.
pub open spec fn after_first_line(s: Seq<u8>) -> Seq<u8> {
    s.skip(line_len(s) as int)
}

/// The leading line ends at the first terminator, and spans all of `s` when
/// there is none.
pub proof fn lemma_line_len_bounds(s: Seq<u8>)
    ensures
        line_len(s) <= s.len(),
        has_line(s) ==> 1 <= line_len(s) && s[line_len(s) - 1] == LINE_FEED,
        forall|k: int| 0 <= k < line_len(s) - 1 ==> s[k] != LINE_FEED,
        !has_line(s) ==> line_len(s) == s.len(),
    decreases s.len(),
{
    if s.len() == 0 {
    } else if s[0] == LINE_FEED {
    } else {
        lemma_line_len_bounds(s.drop_first());
        let t = s.drop_first();
        if has_line(s) {
            let i = choose|i: int| 0 <= i < s.len() && s[i] == LINE_FEED;
            assert(t[i - 1] == LINE_FEED);
            assert(has_line(t));
        }
        if has_line(t) {
            let j = choose|j: int| 0 <= j < t.len() && t[j] == LINE_FEED;
            assert(s[j + 1] == LINE_FEED);
        }
        assert forall|k: int| 0 <= k < line_len(s) - 1 implies s[k] != LINE_FEED by {
            if k > 0 {
                assert(t[k - 1] == s[k]);
            }
        }
    }
}

/// A sequence whose one and only terminator stands at its end.
pub open spec fn is_complete_line(s: Seq<u8>) -> bool {
    s.len() >= 1 && s[s.len() - 1] == LINE_FEED && (forall|k: int|
        0 <= k < s.len() - 1 ==> s[k] != LINE_FEED)
}

/// The complete lines of `s`, in order.
pub open spec fn complete_lines(s: Seq<u8>) -> Seq<Seq<u8>>
    decreases s.len(),
    via complete_lines_decreases
{
    if !has_line(s) {
        seq![]
    } else {
        seq![first_line(s)] + complete_lines(after_first_line(s))
    }
}

#[via_fn]
proof fn complete_lines_decreases(s: Seq<u8>) {
    lemma_line_len_bounds(s);
}

/// What trails the last complete line of `s`.
pub open spec fn line_residue(s: Seq<u8>) -> Seq<u8>
    decreases s.len(),
    via line_residue_decreases
{
    if !has_line(s) {
        s
    } else {
        line_residue(after_first_line(s))
    }
}

#[via_fn]
proof fn line_residue_decreases(s: Seq<u8>) {
    lemma_line_len_bounds(s);
}

/// The residue never holds a terminator.
pub proof fn lemma_residue_has_no_line(s: Seq<u8>)
    ensures
        !has_line(line_residue(s)),
    decreases s.len(),
{
    if has_line(s) {
        lemma_line_len_bounds(s);
        lemma_residue_has_no_line(after_first_line(s));
    }
}

/// The leading line of `s + t` is that of `s` when `s` already holds one;
/// otherwise all of `s` flows into the line under construction.
pub proof fn lemma_line_len_append(s: Seq<u8>, t: Seq<u8>)
    ensures
        has_line(s) ==> line_len(s + t) == line_len(s),
        !has_line(s) ==> line_len(s + t) == s.len() + line_len(t),
    decreases s.len(),
{
    if s.len() == 0 {
        assert(s + t =~= t);
    } else if s[0] == LINE_FEED {
        assert((s + t)[0] == LINE_FEED);
    } else {
        assert((s + t)[0] == s[0]);
        lemma_line_len_append(s.drop_first(), t);
        assert((s + t).drop_first() =~= s.drop_first() + t);
        lemma_line_len_bounds(s);
        lemma_line_len_bounds(s.drop_first());
        if has_line(s) {
            let i = choose|i: int| 0 <= i < s.len() && s[i] == LINE_FEED;
            assert(s.drop_first()[i - 1] == LINE_FEED);
            assert(has_line(s.drop_first()));
        } else {
            if has_line(s.drop_first()) {
                let j = choose|j: int|
                    0 <= j < s.drop_first().len() && s.drop_first()[j] == LINE_FEED;
                assert(s[j + 1] == LINE_FEED);
            }
        }
    }
}

/// Appending `t` extends the lines of `s` with the lines formed from the
/// residue of `s` followed by `t`.
pub proof fn lemma_complete_lines_append(s: Seq<u8>, t: Seq<u8>)
    ensures
        complete_lines(s + t) == complete_lines(s) + complete_lines(line_residue(s) + t),
        line_residue(s + t) == line_residue(line_residue(s) + t),
    decreases s.len(),
{
    lemma_line_len_bounds(s);
    if !has_line(s) {
        assert(complete_lines(s) + complete_lines(line_residue(s) + t) =~= complete_lines(
            s + t,
        )) by {
            assert(line_residue(s) == s);
            assert(complete_lines(s) =~= seq![]);
        }
        assert(line_residue(s) + t =~= s + t);
    } else {
        let rest = after_first_line(s);
        if has_line(s + t) {
        } else {
            lemma_line_len_append(s, t);
            assert((s + t)[line_len(s) - 1] == s[line_len(s) - 1]);
            assert(false);
        }
        lemma_line_len_append(s, t);
        assert(first_line(s + t) =~= first_line(s));
        assert(after_first_line(s + t) =~= rest + t);
        lemma_complete_lines_append(rest, t);
        assert(line_residue(s) == line_residue(rest));
        assert(complete_lines(s + t) == seq![first_line(s)] + complete_lines(rest + t));
        assert(complete_lines(s) + complete_lines(line_residue(s) + t) =~= seq![first_line(s)]
            + (complete_lines(rest) + complete_lines(line_residue(rest) + t)));
    }
}

/// The concatenation of a sequence of byte chunks.
pub open spec fn concat_chunks(chunks: Seq<Seq<u8>>) -> Seq<u8>
    decreases chunks.len(),
{
    if chunks.len() == 0 {
        seq![]
    } else {
        chunks[0] + concat_chunks(chunks.drop_first())
    }
}

/// The lines a buffer emits when the chunks are fed one after another and
/// every complete line is taken out as soon as it is there.
pub open spec fn drained_lines(buf: Seq<u8>, chunks: Seq<Seq<u8>>) -> Seq<Seq<u8>>
    decreases chunks.len(),
{
    if chunks.len() == 0 {
        seq![]
    } else {
        complete_lines(buf + chunks[0]) + drained_lines(
            line_residue(buf + chunks[0]),
            chunks.drop_first(),
        )
    }
}

/// What stays in the buffer after all chunks are fed and drained.
pub open spec fn drained_residue(buf: Seq<u8>, chunks: Seq<Seq<u8>>) -> Seq<u8>
    decreases chunks.len(),
{
    if chunks.len() == 0 {
        buf
    } else {
        drained_residue(line_residue(buf + chunks[0]), chunks.drop_first())
    }
}

/// Chunking does not matter: draining chunk by chunk emits exactly the
/// complete lines of the concatenated input, and leaves its residue.
pub proof fn lemma_drained_lines_are_concat_lines(buf: Seq<u8>, chunks: Seq<Seq<u8>>)
    requires
        !has_line(buf),
    ensures
        drained_lines(buf, chunks) == complete_lines(buf + concat_chunks(chunks)),
        drained_residue(buf, chunks) == line_residue(buf + concat_chunks(chunks)),
    decreases chunks.len(),
{
    if chunks.len() == 0 {
        assert(buf + concat_chunks(chunks) =~= buf);
        assert(complete_lines(buf) =~= seq![]);
    } else {
        let c = chunks[0];
        let rest = chunks.drop_first();
        lemma_residue_has_no_line(buf + c);
        lemma_drained_lines_are_concat_lines(line_residue(buf + c), rest);
        lemma_complete_lines_append(buf + c, concat_chunks(rest));
        assert((buf + c) + concat_chunks(rest) =~= buf + concat_chunks(chunks));
        assert(drained_lines(buf, chunks) =~= complete_lines(buf + concat_chunks(chunks)));
    }
}

/// Line framing: feeding the concatenation of two complete lines `a` and
/// `b`, split into byte chunks in any way whatever, yields exactly the
/// messages `a` then `b`, with nothing left over.
pub proof fn lemma_line_framing(a: Seq<u8>, b: Seq<u8>, chunks: Seq<Seq<u8>>)
    requires
        is_complete_line(a),
        is_complete_line(b),
        concat_chunks(chunks) == a + b,
    ensures
        drained_lines(Seq::empty(), chunks) == seq![a, b],
        drained_residue(Seq::empty(), chunks) == Seq::<u8>::empty(),
{
    assert(!has_line(Seq::<u8>::empty()));
    lemma_drained_lines_are_concat_lines(Seq::empty(), chunks);
    assert(Seq::empty() + concat_chunks(chunks) =~= a + b);
    lemma_complete_lines_of_complete_line(a);
    lemma_complete_lines_of_complete_line(b);
    lemma_complete_lines_append(a, b);
    assert(line_residue(a) + b =~= b);
    assert(complete_lines(a + b) =~= seq![a, b]);
    assert(line_residue(a + b) =~= Seq::<u8>::empty());
}

/// A complete line splits into exactly itself.
pub proof fn lemma_complete_lines_of_complete_line(s: Seq<u8>)
    requires
        is_complete_line(s),
    ensures
        complete_lines(s) == seq![s],
        line_residue(s) == Seq::<u8>::empty(),
{
    lemma_line_len_bounds(s);
    assert(s[s.len() - 1] == LINE_FEED);
    assert(has_line(s));
    assert(line_len(s) == s.len()) by {
        if line_len(s) < s.len() {
            assert(s[line_len(s) - 1] == LINE_FEED);
        }
    }
    assert(first_line(s) =~= s);
    assert(after_first_line(s) =~= Seq::<u8>::empty());
    assert(!has_line(Seq::<u8>::empty()));
    assert(complete_lines(Seq::<u8>::empty()) =~= Seq::<Seq<u8>>::empty());
    assert(line_residue(Seq::<u8>::empty()) =~= Seq::<u8>::empty());
    assert(complete_lines(s) =~= seq![s]);
}

/// First terminator position pins the leading line's length.
pub proof fn lemma_line_len_at_first_newline(s: Seq<u8>, i: int)
    requires
        0 <= i < s.len(),
        s[i] == LINE_FEED,
        forall|k: int| 0 <= k < i ==> s[k] != LINE_FEED,
    ensures
        line_len(s) == i + 1,
{
    lemma_line_len_bounds(s);
    assert(has_line(s));
    if line_len(s) - 1 < i {
        assert(s[line_len(s) - 1] == LINE_FEED);
        assert(false);
    }
    if line_len(s) - 1 > i {
        assert(s[i] != LINE_FEED);
        assert(false);
    }
}

} // verus!
