//! What holds of the codec: that writing leaves no distance where none is
//! meant, that reading stops at the end of the program, and that tokens
//! written into an image are read back from it.

use crate::codec::{
    channel_delta, channel_encoded, decoded, decoded_from, distance_of_kind, encoded, encoded_from,
    carried, filled, kind_of_distance, nudged, pair_position, pixel_encoded, quiet_pairs,
    signature, span, written, Pixel, MAXIMUM_PIXEL_DISTANCE, MINIMUM_PIXEL_DISTANCE,
};
use crate::lexer::{kinds_of, lemma_scanned_shape, scanned_from, Token, TokenKind};
use vstd::prelude::*;

verus! {

/// No pair of adjacent pixels from pixel `i` on carries a distance.
pub open spec fn quiet_from(pixels: Seq<Pixel>, i: int) -> bool {
    forall|k: int| i <= k && k + 1 < pixels.len() ==> #[trigger] carried(pixels, k) is None
}

/// A pair carries a distance exactly when all four channels differ by it
/// and it lies in the band.
pub proof fn lemma_signature_exact(a: Pixel, b: Pixel, distance: u8)
    ensures
        signature(a, b) == Some(distance) <==> {
            &&& MINIMUM_PIXEL_DISTANCE <= distance <= MAXIMUM_PIXEL_DISTANCE
            &&& forall|c: int| 0 <= c < 4 ==> channel_delta(#[trigger] a.0[c], b.0[c]) == distance
        },
{
    if signature(a, b) == Some(distance) {
        assert forall|c: int| 0 <= c < 4 implies channel_delta(#[trigger] a.0[c], b.0[c])
            == distance by {
            if c == 0 {
            } else if c == 1 {
            } else if c == 2 {
            } else {
                assert(c == 3);
            }
        }
    }
    if MINIMUM_PIXEL_DISTANCE <= distance <= MAXIMUM_PIXEL_DISTANCE && (forall|c: int|
        0 <= c < 4 ==> channel_delta(#[trigger] a.0[c], b.0[c]) == distance) {
        assert(channel_delta(a.0[0], b.0[0]) == distance);
        assert(channel_delta(a.0[1], b.0[1]) == distance);
        assert(channel_delta(a.0[2], b.0[2]) == distance);
        assert(channel_delta(a.0[3], b.0[3]) == distance);
    }
}

/// A pair carries no distance where two channels differ by different
/// amounts, or where the first channel differs by an amount outside the
/// band.
pub proof fn lemma_signature_rejects(a: Pixel, b: Pixel)
    ensures
        (exists|c: int, e: int|
            0 <= c < 4 && 0 <= e < 4 && channel_delta(a.0[c], b.0[c]) != channel_delta(
                a.0[e],
                b.0[e],
            )) ==> signature(a, b) is None,
        !(MINIMUM_PIXEL_DISTANCE <= channel_delta(a.0[0], b.0[0]) <= MAXIMUM_PIXEL_DISTANCE)
            ==> signature(a, b) is None,
{
    if signature(a, b) is Some {
        lemma_signature_exact(a, b, signature(a, b)->0);
    }
}

/// The pixel written for a distance of the band carries that distance from
/// the pixel before it.
pub proof fn lemma_marked_pair(distance: u8, pixel: Pixel)
    requires
        MINIMUM_PIXEL_DISTANCE <= distance <= MAXIMUM_PIXEL_DISTANCE,
    ensures
        signature(pixel, pixel_encoded(distance, pixel)) == Some(distance),
{
    let next = pixel_encoded(distance, pixel);
    assert(next.0[0] == channel_encoded(pixel.0[0], distance) as u8);
    assert(next.0[1] == channel_encoded(pixel.0[1], distance) as u8);
    assert(next.0[2] == channel_encoded(pixel.0[2], distance) as u8);
    assert(next.0[3] == channel_encoded(pixel.0[3], distance) as u8);
}

/// Nudging the second pixel of a pair that carries a distance leaves a pair
/// that carries none.
pub proof fn lemma_nudged_pair(a: Pixel, b: Pixel)
    requires
        signature(a, b) is Some,
    ensures
        signature(a, nudged(b)) is None,
{
    let moved = nudged(b);
    assert(moved.0[1] == b.0[1]);
    assert(moved.0[0] == if b.0[0] > u8::MAX / 2 {
        (b.0[0] - 1) as u8
    } else {
        (b.0[0] + 1) as u8
    });
}

/// Making pairs quiet changes no pixel up to the first pixel of the first
/// pair, none after the second pixel of the last pair, and not the number
/// of pixels.
pub proof fn lemma_filled_frame(pixels: Seq<Pixel>, i: int, steps: nat)
    ensures
        filled(pixels, i, steps).len() == pixels.len(),
        forall|x: int|
            0 <= x < pixels.len() && (x <= i || x > i + steps) ==> #[trigger] filled(
                pixels,
                i,
                steps,
            )[x] == pixels[x],
    decreases steps,
{
    if steps > 0 && 0 <= i && i + 1 < pixels.len() {
        let quiet = if signature(pixels[i], pixels[i + 1]) is Some {
            pixels.update(i + 1, nudged(pixels[i + 1]))
        } else {
            pixels
        };
        lemma_filled_frame(quiet, i + 1, (steps - 1) as nat);
    }
}

/// After pairs have been made quiet, they carry no distance.
pub proof fn lemma_filled_quiet(pixels: Seq<Pixel>, i: int, steps: nat)
    requires
        0 <= i,
    ensures
        forall|k: int|
            i <= k < i + steps && k + 1 < pixels.len() ==> #[trigger] carried(
                filled(pixels, i, steps),
                k,
            ) is None,
    decreases steps,
{
    if steps > 0 && i + 1 < pixels.len() {
        let quiet = if carried(pixels, i) is Some {
            pixels.update(i + 1, nudged(pixels[i + 1]))
        } else {
            pixels
        };
        if carried(pixels, i) is Some {
            lemma_nudged_pair(pixels[i], pixels[i + 1]);
        }
        lemma_filled_frame(quiet, i + 1, (steps - 1) as nat);
        lemma_filled_quiet(quiet, i + 1, (steps - 1) as nat);
        let after = filled(pixels, i, steps);
        assert(after == filled(quiet, i + 1, (steps - 1) as nat));
        assert(after[i] == quiet[i]);
        assert(after[i + 1] == quiet[i + 1]);
        assert(carried(after, i) is None);
    }
}

/// How many pixels the tokens from token `from` up to token `to` take.
pub open spec fn spans(tokens: Seq<Token>, from: int, to: int) -> int
    decreases to - from,
{
    if from < to {
        span(tokens[from].kind) + spans(tokens, from + 1, to)
    } else {
        0
    }
}

/// Tokens take no negative number of pixels.
pub proof fn lemma_spans_positive(tokens: Seq<Token>, from: int, to: int)
    ensures
        spans(tokens, from, to) >= 0,
        from < to ==> spans(tokens, from, to) >= 1,
    decreases to - from,
{
    if from < to {
        lemma_spans_positive(tokens, from + 1, to);
    }
}

/// Writing one token at pixel `i` puts its distance between pixel `i` and
/// the next, leaves the pairs that it counts quiet as far as the image
/// reaches, and changes no other pixel.
pub proof fn lemma_written(pixels: Seq<Pixel>, kind: TokenKind, i: int)
    requires
        0 <= i,
        i + 1 < pixels.len(),
    ensures
        written(pixels, kind, i).len() == pixels.len(),
        carried(written(pixels, kind, i), i) == Some(distance_of_kind(kind)),
        forall|k: int|
            i < k < i + span(kind) && k + 1 < pixels.len() ==> #[trigger] carried(
                written(pixels, kind, i),
                k,
            ) is None,
        forall|x: int|
            0 <= x < pixels.len() && (x <= i || x > i + span(kind)) ==> #[trigger] written(
                pixels,
                kind,
                i,
            )[x] == pixels[x],
{
    let distance = distance_of_kind(kind);
    let marked = pixels.update(i + 1, pixel_encoded(distance, pixels[i]));
    lemma_filled_frame(marked, i + 1, kind.count() as nat);
    lemma_filled_quiet(marked, i + 1, kind.count() as nat);
    lemma_marked_pair(distance, pixels[i]);
    let after = written(pixels, kind, i);
    assert(after[i] == marked[i]);
    assert(after[i + 1] == marked[i + 1]);
}

/// Writing tokens changes no pixel up to the one the first token starts
/// at, and not the number of pixels.
pub proof fn lemma_encoded_frame(pixels: Seq<Pixel>, tokens: Seq<Token>, i: int, j: int)
    ensures
        encoded_from(pixels, tokens, i, j).len() == pixels.len(),
        forall|x: int|
            0 <= x < pixels.len() && x <= i ==> #[trigger] encoded_from(pixels, tokens, i, j)[x]
                == pixels[x],
    decreases tokens.len() - j,
{
    if 0 <= j < tokens.len() && 0 <= i && i + 1 < pixels.len() {
        let kind = tokens[j].kind;
        let room = pixels.len() - 2 - i;
        let steps = if kind.count() <= room {
            kind.count() as int
        } else {
            room
        };
        let marked = pixels.update(i + 1, pixel_encoded(distance_of_kind(kind), pixels[i]));
        lemma_filled_frame(marked, i + 1, kind.count() as nat);
        lemma_encoded_frame(written(pixels, kind, i), tokens, i + 1 + steps, j + 1);
    }
}

/// The pixels from pixel `i` on spell the kinds from kind `j` on, and
/// nothing after them: each kind has its distance between two pixels, a
/// count has as many quiet pairs after it and then the next distance or the
/// last pixel, the end of the program is the last kind, and where the kinds
/// end otherwise, every pair after them is quiet.
pub open spec fn spells_from(pixels: Seq<Pixel>, kinds: Seq<TokenKind>, i: int, j: int) -> bool
    decreases kinds.len() - j,
{
    if 0 <= j < kinds.len() {
        let kind = kinds[j];
        &&& 0 <= i
        &&& i + span(kind) < pixels.len()
        &&& carried(pixels, i) == Some(distance_of_kind(kind))
        &&& forall|k: int| i < k < i + span(kind) ==> #[trigger] carried(pixels, k) is None
        &&& if kind is EOF {
            j == kinds.len() - 1
        } else {
            &&& kind.carries_count() && j == kinds.len() - 1 ==> i + span(kind) == pixels.len() - 1
            &&& spells_from(pixels, kinds, i + span(kind), j + 1)
        }
    } else {
        quiet_from(pixels, i)
    }
}

/// After the last token nothing more is read: the list is empty, or ends
/// with the end of the program, or its last token takes the last pixel, or
/// its last token carries no count and the pixel written for it carries no
/// distance to the pixel after it.
pub open spec fn settles(after: Seq<Pixel>, tokens: Seq<Token>, last_pixel: int) -> bool {
    ||| tokens.len() == 0
    ||| tokens.last().kind is EOF
    ||| last_pixel == after.len() - 1
    ||| !tokens.last().kind.carries_count() && carried(after, last_pixel) is None
}

/// The tokens from token `j` up to token `end`, written from pixel `i` on,
/// are spelled by the pixels that result.
proof fn lemma_encoded_spells(pixels: Seq<Pixel>, tokens: Seq<Token>, end: int, i: int, j: int)
    requires
        0 <= j <= end <= tokens.len(),
        0 < end,
        0 <= i,
        i + spans(tokens, j, end) < pixels.len(),
        forall|x: int| j <= x < end - 1 ==> !((#[trigger] tokens[x]).kind is EOF),
        tokens[end - 1].kind is EOF ==> j < end,
        !(tokens[end - 1].kind is EOF) ==> end == tokens.len() && quiet_from(pixels, i + 1),
        settles(encoded_from(pixels, tokens, i, j), tokens.take(end), i + spans(tokens, j, end)),
    ensures
        spells_from(encoded_from(pixels, tokens, i, j), kinds_of(tokens.take(end)), i, j),
    decreases end - j,
{
    let kinds = kinds_of(tokens.take(end));
    let after = encoded_from(pixels, tokens, i, j);
    assert(tokens.take(end).last() == tokens[end - 1]);
    if j < end {
        let kind = tokens[j].kind;
        let one = written(pixels, kind, i);
        let next = i + span(kind);
        lemma_spans_positive(tokens, j + 1, end);
        lemma_written(pixels, kind, i);
        assert(after == encoded_from(one, tokens, next, j + 1));
        lemma_encoded_frame(one, tokens, next, j + 1);
        assert(carried(after, i) == Some(distance_of_kind(kind))) by {
            assert(after[i] == one[i]);
            assert(after[i + 1] == one[i + 1]);
            assert(carried(one, i) == Some(distance_of_kind(kind)));
        }
        assert forall|k: int| i < k < next implies #[trigger] carried(after, k) is None by {
            assert(after[k] == one[k]);
            assert(after[k + 1] == one[k + 1]);
            assert(carried(one, k) is None);
        }
        assert(kinds[j] == kind);
        if !(kind is EOF) {
            if !(tokens[end - 1].kind is EOF) {
                assert forall|k: int| next + 1 <= k && k + 1 < one.len() implies #[trigger] carried(
                    one,
                    k,
                ) is None by {
                    assert(one[k] == pixels[k]);
                    assert(one[k + 1] == pixels[k + 1]);
                    assert(carried(pixels, k) is None);
                }
            }
            lemma_encoded_spells(one, tokens, end, next, j + 1);
        }
    } else {
        assert(after == pixels);
        assert(spans(tokens, j, end) == 0);
        assert forall|k: int| i <= k && k + 1 < pixels.len() implies #[trigger] carried(
            pixels,
            k,
        ) is None by {
            if k > i {
                assert(carried(pixels, k) is None);
            }
        }
    }
}

/// Where every pair from pixel `i` on is quiet, nothing is read from there.
pub proof fn lemma_quiet_decodes_nothing(pixels: Seq<Pixel>, width: int, i: int)
    requires
        0 <= i,
        quiet_from(pixels, i),
    ensures
        decoded_from(pixels, width, i).len() == 0,
    decreases pixels.len() - i,
{
    if i + 1 < pixels.len() {
        assert(carried(pixels, i) is None);
        lemma_quiet_decodes_nothing(pixels, width, i + 1);
    }
}

/// A run of quiet pairs that ends at a pair with a distance, or at the last
/// pixel, has exactly its length.
pub proof fn lemma_quiet_pairs_exact(pixels: Seq<Pixel>, start: int, count: int)
    requires
        0 <= start,
        0 <= count,
        start + count < pixels.len(),
        forall|k: int| start <= k < start + count ==> #[trigger] carried(pixels, k) is None,
        start + count + 1 == pixels.len() || carried(pixels, start + count) is Some,
    ensures
        quiet_pairs(pixels, start) == count,
    decreases count,
{
    if count > 0 {
        assert(carried(pixels, start) is None);
        lemma_quiet_pairs_exact(pixels, start + 1, count - 1);
    }
}

/// The kinds that pixels spell are the kinds that are read from them.
pub proof fn lemma_spelled_decodes(
    pixels: Seq<Pixel>,
    width: int,
    kinds: Seq<TokenKind>,
    i: int,
    j: int,
)
    requires
        0 <= i,
        0 <= j <= kinds.len(),
        spells_from(pixels, kinds, i, j),
    ensures
        kinds_of(decoded_from(pixels, width, i)) == kinds.subrange(j, kinds.len() as int),
    decreases kinds.len() - j,
{
    let read = decoded_from(pixels, width, i);
    let rest = kinds.subrange(j, kinds.len() as int);
    if j < kinds.len() {
        let kind = kinds[j];
        let next = i + span(kind);
        let found = kind_of_distance(distance_of_kind(kind))->0;
        let position = pair_position(width, i);
        assert(found == kind.with_count(0));
        if kind is EOF {
            assert(read =~= seq![Token { kind, position }]);
            assert(kinds_of(read) =~= rest);
        } else {
            lemma_spelled_decodes(pixels, width, kinds, next, j + 1);
            let tail = decoded_from(pixels, width, next);
            if kind.carries_count() {
                if j + 1 < kinds.len() {
                    assert(spells_from(pixels, kinds, next, j + 1));
                    assert(carried(pixels, next) == Some(distance_of_kind(kinds[j + 1])));
                }
                lemma_quiet_pairs_exact(pixels, i + 1, kind.count() as int);
                assert(found.with_count(kind.count()) == kind);
            } else {
                assert(found == kind);
            }
            assert(read =~= seq![Token { kind, position }] + tail);
            assert(kinds_of(read) =~= seq![kind] + kinds_of(tail));
            assert(rest =~= seq![kind] + kinds.subrange(j + 1, kinds.len() as int));
        }
    } else {
        lemma_quiet_decodes_nothing(pixels, width, i);
        assert(kinds_of(read) =~= rest);
    }
}

/// Tokens written into an image are read back from it, kind by kind and
/// count by count, where the image has room for all of them, no pair of its
/// pixels carried a distance before, the end of the program stands nowhere
/// but at the end of the tokens, and nothing more is read after the last
/// token.
pub proof fn lemma_round_trip(pixels: Seq<Pixel>, width: int, tokens: Seq<Token>)
    requires
        tokens.len() > 0 ==> spans(tokens, 0, tokens.len() as int) < pixels.len(),
        quiet_from(pixels, 0),
        forall|x: int| 0 <= x < tokens.len() - 1 ==> !((#[trigger] tokens[x]).kind is EOF),
        settles(encoded(pixels, tokens), tokens, spans(tokens, 0, tokens.len() as int)),
    ensures
        kinds_of(decoded(encoded(pixels, tokens), width)) == kinds_of(tokens),
{
    let after = encoded(pixels, tokens);
    let kinds = kinds_of(tokens);
    let end = tokens.len() as int;
    assert(tokens.take(end) =~= tokens);
    if tokens.len() > 0 {
        assert(quiet_from(pixels, 1));
        lemma_encoded_spells(pixels, tokens, end, 0, 0);
        lemma_spelled_decodes(after, width, kinds, 0, 0);
        assert(kinds.subrange(0, kinds.len() as int) =~= kinds);
    } else {
        lemma_quiet_decodes_nothing(pixels, width, 0);
        assert(kinds_of(decoded(after, width)) =~= kinds);
    }
}

/// Tokens written into any image are read back from it up to the first
/// end of the program, kind by kind and count by count, where the image
/// has room for the tokens up to there. What was written after it is not
/// read.
pub proof fn lemma_round_trip_to_end(
    pixels: Seq<Pixel>,
    width: int,
    tokens: Seq<Token>,
    end: int,
)
    requires
        0 <= end < tokens.len(),
        tokens[end].kind is EOF,
        forall|x: int| 0 <= x < end ==> !((#[trigger] tokens[x]).kind is EOF),
        spans(tokens, 0, end + 1) < pixels.len(),
    ensures
        kinds_of(decoded(encoded(pixels, tokens), width)) == kinds_of(tokens.take(end + 1)),
{
    let after = encoded(pixels, tokens);
    let kinds = kinds_of(tokens.take(end + 1));
    assert(tokens.take(end + 1).last() == tokens[end]);
    lemma_encoded_spells(pixels, tokens, end + 1, 0, 0);
    lemma_spelled_decodes(after, width, kinds, 0, 0);
    assert(kinds.subrange(0, kinds.len() as int) =~= kinds);
}

/// The tokens of any text, written into any image that has room for them,
/// are read back from it kind by kind and count by count.
pub proof fn lemma_scanned_round_trip(text: Seq<char>, pixels: Seq<Pixel>, width: int)
    requires
        spans(scanned_from(text, 0), 0, scanned_from(text, 0).len() as int) < pixels.len(),
    ensures
        kinds_of(decoded(encoded(pixels, scanned_from(text, 0)), width)) == kinds_of(
            scanned_from(text, 0),
        ),
{
    let tokens = scanned_from(text, 0);
    lemma_scanned_shape(text, 0);
    lemma_round_trip_to_end(pixels, width, tokens, tokens.len() - 1);
    assert(tokens.take(tokens.len() as int) =~= tokens);
}

/// Every token that starts inside the image has its distance between the
/// pixel it starts at and the next one, and no pair of the pixels that it
/// takes for its count carries a distance.
pub proof fn lemma_token_written(pixels: Seq<Pixel>, tokens: Seq<Token>, j: int)
    requires
        0 <= j < tokens.len(),
        spans(tokens, 0, j) + 1 < pixels.len(),
    ensures
        carried(encoded(pixels, tokens), spans(tokens, 0, j)) == Some(
            distance_of_kind(tokens[j].kind),
        ),
        forall|k: int|
            spans(tokens, 0, j) < k < spans(tokens, 0, j) + span(tokens[j].kind) && k + 1
                < pixels.len() ==> #[trigger] carried(encoded(pixels, tokens), k) is None,
{
    lemma_token_written_from(pixels, tokens, 0, 0, j);
}

/// The same for the tokens from token `first` on, written from pixel `i`
/// on.
proof fn lemma_token_written_from(pixels: Seq<Pixel>, tokens: Seq<Token>, i: int, first: int, j: int)
    requires
        0 <= first <= j < tokens.len(),
        0 <= i,
        i + spans(tokens, first, j) + 1 < pixels.len(),
    ensures
        carried(encoded_from(pixels, tokens, i, first), i + spans(tokens, first, j)) == Some(
            distance_of_kind(tokens[j].kind),
        ),
        forall|k: int|
            i + spans(tokens, first, j) < k < i + spans(tokens, first, j) + span(tokens[j].kind)
                && k + 1 < pixels.len() ==> #[trigger] carried(
                encoded_from(pixels, tokens, i, first),
                k,
            ) is None,
    decreases j - first,
{
    let after = encoded_from(pixels, tokens, i, first);
    let kind = tokens[first].kind;
    let one = written(pixels, kind, i);
    let room = pixels.len() - 2 - i;
    let steps = if kind.count() <= room {
        kind.count() as int
    } else {
        room
    };
    lemma_spans_positive(tokens, first + 1, j);
    lemma_written(pixels, kind, i);
    lemma_encoded_frame(one, tokens, i + 1 + steps, first + 1);
    assert(after == encoded_from(one, tokens, i + 1 + steps, first + 1));
    if first == j {
        assert(spans(tokens, first, j) == 0);
        assert(carried(after, i) == Some(distance_of_kind(kind))) by {
            assert(after[i] == one[i]);
            assert(after[i + 1] == one[i + 1]);
            assert(carried(one, i) == Some(distance_of_kind(kind)));
        }
        assert forall|k: int| i < k < i + span(kind) && k + 1 < pixels.len() implies #[trigger] carried(
            after,
            k,
        ) is None by {
            assert(after[k] == one[k]);
            assert(after[k + 1] == one[k + 1]);
            assert(carried(one, k) is None);
        }
    } else {
        assert(spans(tokens, first, j) == span(kind) + spans(tokens, first + 1, j));
        lemma_token_written_from(one, tokens, i + span(kind), first + 1, j);
    }
}

/// A run of quiet pairs before a pair with a distance ends at that pair at
/// the latest, and does not depend on the pixels after that pair.
proof fn lemma_quiet_pairs_cut(pixels: Seq<Pixel>, k: int, start: int)
    requires
        0 <= start <= k,
        k + 1 < pixels.len(),
        carried(pixels, k) is Some,
    ensures
        start + quiet_pairs(pixels, start) <= k,
        quiet_pairs(pixels.take(k + 2), start) == quiet_pairs(pixels, start),
    decreases k - start,
{
    let cut = pixels.take(k + 2);
    assert(cut[start] == pixels[start]);
    assert(cut[start + 1] == pixels[start + 1]);
    if start < k && carried(pixels, start) is None {
        lemma_quiet_pairs_cut(pixels, k, start + 1);
    }
}

/// Reading from pixel `i` on stops at the first pair from there on that
/// carries the distance of the end of the program.
proof fn lemma_decoding_stops_from(pixels: Seq<Pixel>, width: int, k: int, i: int)
    requires
        0 <= i <= k,
        k + 1 < pixels.len(),
        carried(pixels, k) == Some(distance_of_kind(TokenKind::EOF)),
        forall|x: int| i <= x < k ==> #[trigger] carried(pixels, x) != Some(
            distance_of_kind(TokenKind::EOF),
        ),
    ensures
        decoded_from(pixels, width, i) == decoded_from(pixels.take(k + 2), width, i),
        decoded_from(pixels, width, i).len() > 0,
        decoded_from(pixels, width, i).last() == (Token {
            kind: TokenKind::EOF,
            position: pair_position(width, k),
        }),
    decreases k - i,
{
    let cut = pixels.take(k + 2);
    assert(cut[i] == pixels[i]);
    assert(cut[i + 1] == pixels[i + 1]);
    assert(carried(cut, i) == carried(pixels, i));
    if i < k {
        assert(carried(pixels, i) != Some(distance_of_kind(TokenKind::EOF)));
        match carried(pixels, i) {
            None => {
                lemma_decoding_stops_from(pixels, width, k, i + 1);
            },
            Some(distance) => {
                let kind = kind_of_distance(distance)->0;
                if kind.carries_count() {
                    lemma_quiet_pairs_cut(pixels, k, i + 1);
                    lemma_decoding_stops_from(
                        pixels,
                        width,
                        k,
                        i + 1 + quiet_pairs(pixels, i + 1),
                    );
                } else {
                    lemma_decoding_stops_from(pixels, width, k, i + 1);
                }
            },
        }
    }
}

/// Reading stops at the first pair that carries the distance of the end of
/// the program: the token for it is the last one read, and the pixels after
/// that pair make no difference.
pub proof fn lemma_decoding_stops(pixels: Seq<Pixel>, width: int, k: int)
    requires
        0 <= k,
        k + 1 < pixels.len(),
        carried(pixels, k) == Some(distance_of_kind(TokenKind::EOF)),
        forall|x: int| 0 <= x < k ==> #[trigger] carried(pixels, x) != Some(
            distance_of_kind(TokenKind::EOF),
        ),
    ensures
        decoded(pixels, width) == decoded(pixels.take(k + 2), width),
        decoded(pixels, width).len() > 0,
        decoded(pixels, width).last() == (Token {
            kind: TokenKind::EOF,
            position: pair_position(width, k),
        }),
{
    lemma_decoding_stops_from(pixels, width, k, 0);
}

} // verus!
