//! A text cut at spans given as byte offsets into its UTF-8 encoding: the
//! text before each span, the span itself, and the text after the last one.
use vstd::prelude::*;
use vstd::string::StringSliceAdditionalSpecFns;
use vstd::utf8::{decode_utf8, encode_utf8, is_char_boundary, valid_utf8};

verus! {

/// Spans of `bytes`, each a start and an end offset: each starts no later
/// than it ends, both offsets fall on character boundaries, and each span
/// ends no later than any later one starts.
pub open spec fn spans_well_placed(spans: Seq<(usize, usize)>, bytes: Seq<u8>) -> bool {
    &&& forall|i: int|
        #![trigger spans[i]]
        0 <= i < spans.len() ==> {
            &&& spans[i].0 <= spans[i].1
            &&& is_char_boundary(bytes, spans[i].0 as int)
            &&& is_char_boundary(bytes, spans[i].1 as int)
        }
    &&& forall|i: int, j: int|
        #![trigger spans[i], spans[j]]
        0 <= i < j < spans.len() ==> spans[i].1 <= spans[j].0
}

/// Where the last span ends; 0 when there is none.
pub open spec fn spans_end(spans: Seq<(usize, usize)>) -> int {
    if spans.len() == 0 {
        0
    } else {
        spans.last().1 as int
    }
}

/// The characters encoded by `bytes` from offset `a` up to offset `b`.
pub open spec fn text_between(bytes: Seq<u8>, a: int, b: int) -> Seq<char> {
    decode_utf8(bytes.subrange(a, b))
}

/// The pieces of `bytes` up to the end of the last span: for each span, the
/// text since the previous one (not a match) and the span's own text (a
/// match).
pub open spec fn pieces_through(bytes: Seq<u8>, spans: Seq<(usize, usize)>) -> Seq<
    (Seq<char>, bool),
>
    decreases spans.len(),
{
    if spans.len() == 0 {
        Seq::empty()
    } else {
        let s = spans.last();
        pieces_through(bytes, spans.drop_last()).push(
            (text_between(bytes, spans_end(spans.drop_last()), s.0 as int), false),
        ).push((text_between(bytes, s.0 as int, s.1 as int), true))
    }
}

/// `text` cut at `spans`: the pieces up to the end of the last span, then the
/// rest of the text.
pub open spec fn span_pieces(text: Seq<char>, spans: Seq<(usize, usize)>) -> Seq<
    (Seq<char>, bool),
> {
    let bytes = encode_utf8(text);
    pieces_through(bytes, spans).push(
        (text_between(bytes, spans_end(spans), bytes.len() as int), false),
    )
}

/// The texts of the pieces, one after the other.
pub open spec fn joined_pieces(pieces: Seq<(Seq<char>, bool)>) -> Seq<char>
    decreases pieces.len(),
{
    if pieces.len() == 0 {
        Seq::empty()
    } else {
        joined_pieces(pieces.drop_last()) + pieces.last().0
    }
}

/// The texts of pieces, each with whether it is a match.
pub open spec fn piece_views(v: Seq<(String, bool)>) -> Seq<(Seq<char>, bool)> {
    v.map_values(|p: (String, bool)| (p.0@, p.1))
}

/// A character boundary at or after the boundary `a` is a boundary of the
/// bytes from `a` on.
proof fn lemma_boundary_in_suffix(b: Seq<u8>, a: int, k: int)
    requires
        valid_utf8(b),
        is_char_boundary(b, a),
        is_char_boundary(b, k),
        a <= k,
    ensures
        0 <= a <= k <= b.len(),
        valid_utf8(b.subrange(a, b.len() as int)),
        is_char_boundary(b.subrange(a, b.len() as int), k - a),
{
    broadcast use vstd::utf8::group_utf8_lib;

    reveal_with_fuel(is_char_boundary, 1);
    let s = b.subrange(a, b.len() as int);
    assert(valid_utf8(s));
    if k == b.len() {
        assert(is_char_boundary(s, s.len() as int));
    } else if k > a {
        assert(s[k - a] == b[k]);
        vstd::utf8::is_char_boundary_iff_not_is_continuation_byte(b, k);
        vstd::utf8::is_char_boundary_iff_not_is_continuation_byte(s, k - a);
    }
}

/// Cutting the encoding of `rest` at a character boundary cuts `rest`
/// itself: the two parts decode to texts that make up `rest`.
proof fn lemma_cut_text(rest: Seq<char>, k: int)
    requires
        is_char_boundary(encode_utf8(rest), k),
    ensures
        rest == decode_utf8(encode_utf8(rest).subrange(0, k)) + decode_utf8(
            encode_utf8(rest).subrange(k, encode_utf8(rest).len() as int),
        ),
{
    broadcast use vstd::utf8::group_utf8_lib;

    vstd::utf8::decode_utf8_split(encode_utf8(rest), k);
}

/// The text of a string is what its encoding decodes to.
proof fn lemma_text_of(s: &str)
    ensures
        s@ == decode_utf8(s.spec_bytes()),
        valid_utf8(s.spec_bytes()),
{
    vstd::utf8::encode_utf8_decode_utf8(s@);
    vstd::utf8::encode_utf8_valid_utf8(s@);
}

/// Cuts `text` at `spans`, byte offsets into its encoding: the text before
/// each span, the span, and the text after the last one. Joined, the pieces
/// give `text` back.
pub fn cut_at_spans(text: &str, spans: &[(usize, usize)]) -> (res: Vec<(String, bool)>)
    requires
        spans_well_placed(spans@, text.spec_bytes()),
    ensures
        piece_views(res@) == span_pieces(text@, spans@),
        joined_pieces(piece_views(res@)) == text@,
{
    let ghost bytes = text.spec_bytes();
    let mut res: Vec<(String, bool)> = Vec::new();
    let mut rest: &str = text;
    let mut last: usize = 0;
    let mut i: usize = 0;
    proof {
        lemma_text_of(text);
        assert(is_char_boundary(bytes, 0));
        assert(bytes.subrange(0, bytes.len() as int) =~= bytes);
        assert(spans@.subrange(0, 0) =~= Seq::<(usize, usize)>::empty());
    }
    while i < spans.len()
        invariant
            bytes == text.spec_bytes(),
            bytes == encode_utf8(text@),
            valid_utf8(bytes),
            spans_well_placed(spans@, bytes),
            i <= spans@.len(),
            last == spans_end(spans@.subrange(0, i as int)),
            is_char_boundary(bytes, last as int),
            last <= bytes.len(),
            rest.spec_bytes() == bytes.subrange(last as int, bytes.len() as int),
            piece_views(res@) == pieces_through(bytes, spans@.subrange(0, i as int)),
            joined_pieces(piece_views(res@)) + rest@ == text@,
        decreases spans@.len() - i,
    {
        let (start, end) = spans[i];
        proof {
            assert(spans@[i as int] == (start, end));
            if i > 0 {
                assert(spans@[i - 1].1 <= spans@[i as int].0);
                assert(spans@.subrange(0, i as int).last() == spans@[i - 1]);
            }
            lemma_boundary_in_suffix(bytes, last as int, start as int);
            lemma_boundary_in_suffix(bytes, start as int, end as int);
            assert(bytes.subrange(last as int, bytes.len() as int).subrange(
                (start - last) as int,
                bytes.subrange(last as int, bytes.len() as int).len() as int,
            ) =~= bytes.subrange(start as int, bytes.len() as int));
        }
        let (before, after) = rest.split_at(start - last);
        let (matched, tail) = after.split_at(end - start);
        proof {
            assert(before.spec_bytes() =~= bytes.subrange(last as int, start as int));
            assert(matched.spec_bytes() =~= bytes.subrange(start as int, end as int));
            assert(tail.spec_bytes() =~= bytes.subrange(end as int, bytes.len() as int));
            lemma_text_of(rest);
            lemma_text_of(after);
            lemma_text_of(before);
            lemma_text_of(matched);
            lemma_text_of(tail);
            lemma_cut_text(rest@, (start - last) as int);
            lemma_cut_text(after@, (end - start) as int);
        }
        let ghost old_views = piece_views(res@);
        res.push((before.to_owned(), false));
        res.push((matched.to_owned(), true));
        proof {
            let views = piece_views(res@);
            assert(views.drop_last() =~= old_views.push((before@, false)));
            assert(views.drop_last().drop_last() =~= old_views);
            assert(views =~= old_views.push((before@, false)).push((matched@, true)));
            let next = spans@.subrange(0, i + 1);
            assert(next.drop_last() =~= spans@.subrange(0, i as int));
            assert(next.last() == (start, end));
            assert(joined_pieces(views.drop_last()) == joined_pieces(old_views) + before@);
            assert(joined_pieces(views) == joined_pieces(old_views) + before@ + matched@);
            assert(joined_pieces(old_views) + before@ + matched@ + tail@ =~= joined_pieces(
                old_views,
            ) + rest@);
        }
        rest = tail;
        last = end;
        i = i + 1;
    }
    let ghost old_views = piece_views(res@);
    res.push((rest.to_owned(), false));
    proof {
        lemma_text_of(rest);
        assert(spans@.subrange(0, spans@.len() as int) =~= spans@);
        let views = piece_views(res@);
        assert(views.drop_last() =~= old_views);
        assert(views =~= old_views.push((rest@, false)));
    }
    res
}

} // verus!
