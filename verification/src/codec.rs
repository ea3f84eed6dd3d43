//! The codec that carries tokens in the differences between adjacent pixels:
//! the mapping between token kinds and distances, the decoder that reads
//! tokens off a grid of pixels, and the encoder that writes them into one.

use crate::lexer::{Position, Token, TokenKind};
use vstd::arithmetic::div_mod::lemma_fundamental_div_mod_converse;
use vstd::prelude::*;

verus! {

/// Smallest per-channel difference that carries a token.
pub const MINIMUM_PIXEL_DISTANCE: u8 = 10;

/// Largest per-channel difference that carries a token.
pub const MAXIMUM_PIXEL_DISTANCE: u8 = 18;

/// `u8::abs_diff` computes the absolute difference of its two arguments.
pub assume_specification[ u8::abs_diff ](a: u8, b: u8) -> (difference: u8)
    ensures
        difference == if a >= b {
            a - b
        } else {
            b - a
        },
;

/// Four 8-bit channels: red, green, blue, alpha.
#[derive(Debug, Clone, Copy, PartialEq, Eq)]
pub struct Pixel(pub [u8; 4]);

/// The absolute difference of two channel values.
pub open spec fn channel_delta(a: u8, b: u8) -> int {
    if a >= b {
        a - b
    } else {
        b - a
    }
}

/// The distance that the adjacent pixels `a` and `b` carry, if any: all four
/// channels differ by the same amount, and that amount lies in the band.
pub open spec fn signature(a: Pixel, b: Pixel) -> Option<u8> {
    let d = channel_delta(a.0[0], b.0[0]);
    if MINIMUM_PIXEL_DISTANCE <= d <= MAXIMUM_PIXEL_DISTANCE && channel_delta(a.0[1], b.0[1]) == d
        && channel_delta(a.0[2], b.0[2]) == d && channel_delta(a.0[3], b.0[3]) == d {
        Some(d as u8)
    } else {
        None
    }
}

/// The distance that two adjacent pixels carry, if they carry one.
pub fn pixel_distance(a: &Pixel, b: &Pixel) -> (distance: Option<u8>)
    ensures
        distance == signature(*a, *b),
{
    let diff = a.0[0].abs_diff(b.0[0]);
    if diff < MINIMUM_PIXEL_DISTANCE || diff > MAXIMUM_PIXEL_DISTANCE {
        return None;
    }
    if a.0[1].abs_diff(b.0[1]) != diff || a.0[2].abs_diff(b.0[2]) != diff || a.0[3].abs_diff(b.0[3])
        != diff {
        return None;
    }
    Some(diff)
}

/// Whether a distance can be put on a channel value: to put it on, the
/// distance is added, or taken off where the sum would reach the top of the
/// range, and a value that is both near the top and smaller than the
/// distance allows neither.
pub open spec fn channel_encodable(value: u8, distance: u8) -> bool {
    value + distance < u8::MAX || value >= distance
}

/// A channel value with a distance put on it: `distance` more, or
/// `distance` less where the sum would reach the top of the range.
pub open spec fn channel_encoded(value: u8, distance: u8) -> int {
    if value + distance >= u8::MAX {
        value - distance
    } else {
        value + distance
    }
}

/// Puts a distance on one channel value.
pub fn encode_channel(value: u8, distance: u8) -> (encoded: u8)
    requires
        channel_encodable(value, distance),
    ensures
        encoded == channel_encoded(value, distance),
{
    if value.saturating_add(distance) == u8::MAX {
        value - distance
    } else {
        value + distance
    }
}

/// Puts a distance on each of the four channel values of a pixel.
pub fn encoded_pixel(distance: u8, values: &[u8; 4]) -> (encoded: [u8; 4])
    requires
        forall|c: int| 0 <= c < 4 ==> channel_encodable(#[trigger] values[c], distance),
    ensures
        forall|c: int| 0 <= c < 4 ==> #[trigger] encoded[c] == channel_encoded(values[c], distance),
{
    [
        encode_channel(values[0], distance),
        encode_channel(values[1], distance),
        encode_channel(values[2], distance),
        encode_channel(values[3], distance),
    ]
}

/// The kind that a distance stands for, with a zero count where the kind
/// carries one. Distances outside the band stand for nothing.
pub open spec fn kind_of_distance(distance: u8) -> Option<TokenKind> {
    if distance == 10 {
        Some(TokenKind::Increment(0))
    } else if distance == 11 {
        Some(TokenKind::Decrement(0))
    } else if distance == 12 {
        Some(TokenKind::Right(0))
    } else if distance == 13 {
        Some(TokenKind::Left(0))
    } else if distance == 14 {
        Some(TokenKind::LoopStart)
    } else if distance == 15 {
        Some(TokenKind::LoopEnd)
    } else if distance == 16 {
        Some(TokenKind::PutChar)
    } else if distance == 17 {
        Some(TokenKind::ReadChar)
    } else if distance == 18 {
        Some(TokenKind::EOF)
    } else {
        None
    }
}

/// The distance that stands for a kind, whatever count it carries.
pub open spec fn distance_of_kind(kind: TokenKind) -> u8 {
    match kind {
        TokenKind::Increment(_) => 10,
        TokenKind::Decrement(_) => 11,
        TokenKind::Right(_) => 12,
        TokenKind::Left(_) => 13,
        TokenKind::LoopStart => 14,
        TokenKind::LoopEnd => 15,
        TokenKind::PutChar => 16,
        TokenKind::ReadChar => 17,
        TokenKind::EOF => 18,
    }
}

/// The kind that a distance stands for, with a zero count where the kind
/// carries one.
pub fn distance_to_kind(distance: u8) -> (kind: Option<TokenKind>)
    ensures
        kind == kind_of_distance(distance),
{
    if distance < MINIMUM_PIXEL_DISTANCE {
        return None;
    }
    match distance - MINIMUM_PIXEL_DISTANCE {
        0 => Some(TokenKind::Increment(0)),
        1 => Some(TokenKind::Decrement(0)),
        2 => Some(TokenKind::Right(0)),
        3 => Some(TokenKind::Left(0)),
        4 => Some(TokenKind::LoopStart),
        5 => Some(TokenKind::LoopEnd),
        6 => Some(TokenKind::PutChar),
        7 => Some(TokenKind::ReadChar),
        8 => Some(TokenKind::EOF),
        _ => None,
    }
}

/// The distance that stands for a kind.
pub fn kind_to_distance(kind: &TokenKind) -> (distance: u8)
    ensures
        distance == distance_of_kind(*kind),
{
    let step: u8 = match kind {
        TokenKind::Increment(_) => 0,
        TokenKind::Decrement(_) => 1,
        TokenKind::Right(_) => 2,
        TokenKind::Left(_) => 3,
        TokenKind::LoopStart => 4,
        TokenKind::LoopEnd => 5,
        TokenKind::PutChar => 6,
        TokenKind::ReadChar => 7,
        TokenKind::EOF => 8,
    };
    MINIMUM_PIXEL_DISTANCE + step
}

/// Every kind comes back from its distance, but for the count it carried.
pub proof fn lemma_kind_survives_distance(kind: TokenKind)
    ensures
        kind_of_distance(distance_of_kind(kind)) == Some(kind.with_count(0)),
        MINIMUM_PIXEL_DISTANCE <= distance_of_kind(kind) <= MAXIMUM_PIXEL_DISTANCE,
{
}

/// Every distance of the band comes back from its kind, and the distances
/// outside the band have no kind.
pub proof fn lemma_distance_survives_kind(distance: u8)
    ensures
        MINIMUM_PIXEL_DISTANCE <= distance <= MAXIMUM_PIXEL_DISTANCE ==> kind_of_distance(
            distance,
        ) is Some && distance_of_kind(kind_of_distance(distance)->0) == distance,
        !(MINIMUM_PIXEL_DISTANCE <= distance <= MAXIMUM_PIXEL_DISTANCE) ==> kind_of_distance(
            distance,
        ) is None,
{
}

/// How many source symbols a kind stands for: its count cut to 32 bits where
/// it carries one, else 1.
pub fn kind_count(kind: &TokenKind) -> (count: u32)
    ensures
        count == if kind.carries_count() {
            kind.count() as u32
        } else {
            1u32
        },
{
    match kind {
        TokenKind::Increment(count)
        | TokenKind::Decrement(count)
        | TokenKind::Right(count)
        | TokenKind::Left(count) => #[verifier::truncate]
        (*count as u32),
        _ => 1,
    }
}

/// Adds `count` to the repeat count of a kind that carries one.
pub fn increase_kind(kind: &mut TokenKind, count: u32)
    requires
        old(kind).carries_count() ==> old(kind).count() + count <= usize::MAX,
    ensures
        *final(kind) == old(kind).with_count((old(kind).count() + count) as usize),
{
    match kind {
        TokenKind::Increment(c) => *c += count as usize,
        TokenKind::Decrement(c) => *c += count as usize,
        TokenKind::Right(c) => *c += count as usize,
        TokenKind::Left(c) => *c += count as usize,
        _ => {},
    }
}

/// A grid of pixels, stored row by row.
#[derive(Debug, Clone, PartialEq, Eq)]
pub struct Image {
    pub width: u32,
    pub height: u32,
    pub pixels: Vec<Pixel>,
}

/// The pixels that a buffer of channel values holds, four values to a pixel.
pub open spec fn pixels_of(raw: Seq<u8>) -> Seq<Pixel> {
    Seq::new(
        (raw.len() / 4) as nat,
        |i: int| Pixel([raw[4 * i], raw[4 * i + 1], raw[4 * i + 2], raw[4 * i + 3]]),
    )
}

/// The channel values of the pixels, one pixel after the other.
pub open spec fn raw_of(pixels: Seq<Pixel>) -> Seq<u8> {
    Seq::new(4 * pixels.len(), |i: int| pixels[i / 4].0[i % 4])
}

impl Image {
    /// The grid holds exactly `width * height` pixels.
    pub open spec fn wf(&self) -> bool {
        self.pixels@.len() == self.width * self.height
    }

    /// Builds the grid from a buffer of channel values, four to a pixel, row
    /// by row. There is no grid where the buffer does not hold exactly
    /// `width * height` pixels.
    pub fn from_raw(width: u32, height: u32, raw: &[u8]) -> (image: Option<Image>)
        ensures
            image is Some <==> raw@.len() == 4 * (width * height),
            image matches Some(image) ==> image.wf() && image.width == width && image.height
                == height && image.pixels@ == pixels_of(raw@),
    {
        assert(width * height <= 0xffff_fffe_0000_0001) by (nonlinear_arith)
            requires
                width <= 0xffff_ffff,
                height <= 0xffff_ffff,
        ;
        let count: u128 = (width as u128) * (height as u128);
        if raw.len() as u128 != 4 * count {
            return None;
        }
        let n: usize = raw.len() / 4;
        let mut pixels: Vec<Pixel> = Vec::with_capacity(n);
        let mut i: usize = 0;
        while i < n
            invariant
                i <= n,
                n == raw@.len() / 4,
                raw@.len() == 4 * n,
                4 * n <= usize::MAX,
                pixels@ == pixels_of(raw@).take(i as int),
            decreases n - i,
        {
            let pixel = Pixel([raw[4 * i], raw[4 * i + 1], raw[4 * i + 2], raw[4 * i + 3]]);
            assert(pixel.0 =~= pixels_of(raw@)[i as int].0);
            pixels.push(pixel);
            i += 1;
        }
        Some(Image { width, height, pixels })
    }

    /// The channel values of the grid, one pixel after the other.
    pub fn to_raw(&self) -> (raw: Vec<u8>)
        requires
            4 * self.pixels@.len() <= usize::MAX,
        ensures
            raw@ == raw_of(self.pixels@),
    {
        let n = self.pixels.len();
        let mut raw: Vec<u8> = Vec::with_capacity(4 * n);
        let mut i: usize = 0;
        while i < n
            invariant
                i <= n,
                n == self.pixels@.len(),
                raw@ == raw_of(self.pixels@).take(4 * i),
            decreases n - i,
        {
            let pixel = self.pixels[i];
            raw.push(pixel.0[0]);
            raw.push(pixel.0[1]);
            raw.push(pixel.0[2]);
            raw.push(pixel.0[3]);
            i += 1;
        }
        raw
    }
}

/// A buffer of whole pixels comes back from the pixels it holds, and pixels
/// come back from their buffer.
pub proof fn lemma_raw_round_trip(raw: Seq<u8>, pixels: Seq<Pixel>)
    ensures
        raw.len() % 4 == 0 ==> raw_of(pixels_of(raw)) == raw,
        pixels_of(raw_of(pixels)) == pixels,
{
    if raw.len() % 4 == 0 {
        assert(raw_of(pixels_of(raw)) =~= raw);
    }
    assert forall|i: int| 0 <= i < pixels.len() implies pixels_of(raw_of(pixels))[i] == pixels[i] by {
        assert(pixels_of(raw_of(pixels))[i].0 =~= pixels[i].0);
    }
    assert(pixels_of(raw_of(pixels)) =~= pixels);
}

/// The place that a token gets when the pair of pixels `k` and `k + 1`
/// introduces it: the row of pixel `k`, and one more than its column.
pub open spec fn pair_position(width: int, k: int) -> Position {
    Position((k / width) as u32, (k % width + 1) as u32)
}

/// The distance that the pair of pixels `k` and `k + 1` carries, if any.
pub open spec fn carried(pixels: Seq<Pixel>, k: int) -> Option<u8> {
    signature(pixels[k], pixels[k + 1])
}

/// How many pairs of adjacent pixels in a row, from the pair that starts at
/// pixel `k` on, carry no distance.
pub open spec fn quiet_pairs(pixels: Seq<Pixel>, k: int) -> nat
    decreases pixels.len() - k,
{
    if 0 <= k && k + 1 < pixels.len() && carried(pixels, k) is None {
        1 + quiet_pairs(pixels, k + 1)
    } else {
        0
    }
}

/// The tokens that the pixels from pixel `k` on spell, when no run is open
/// at `k`. A pair that carries a distance introduces a token. A kind with a
/// count takes the quiet pairs that follow as its count. The token for the
/// end of the program closes the list.
pub open spec fn decoded_from(pixels: Seq<Pixel>, width: int, k: int) -> Seq<Token>
    decreases pixels.len() - k,
{
    if 0 <= k && k + 1 < pixels.len() {
        match carried(pixels, k) {
            None => decoded_from(pixels, width, k + 1),
            Some(distance) => {
                let kind = kind_of_distance(distance)->0;
                let position = pair_position(width, k);
                if kind is EOF {
                    seq![Token { kind, position }]
                } else if kind.carries_count() {
                    proof {
                        lemma_quiet_pairs_bound(pixels, k + 1);
                    }
                    let count = quiet_pairs(pixels, k + 1);
                    seq![Token { kind: kind.with_count(count as usize), position }] + decoded_from(
                        pixels,
                        width,
                        k + 1 + count,
                    )
                } else {
                    seq![Token { kind, position }] + decoded_from(pixels, width, k + 1)
                }
            },
        }
    } else {
        Seq::empty()
    }
}

/// The tokens that a grid of pixels spells.
pub open spec fn decoded(pixels: Seq<Pixel>, width: int) -> Seq<Token> {
    decoded_from(pixels, width, 0)
}

/// What is still to come at pixel `k` while `run` is open: the run, closed
/// with the quiet pairs ahead, and the tokens after it.
spec fn pending(pixels: Seq<Pixel>, width: int, run: Option<Token>, k: int) -> Seq<Token> {
    match run {
        None => decoded_from(pixels, width, k),
        Some(token) => {
            let ahead = quiet_pairs(pixels, k);
            seq![
                Token {
                    kind: token.kind.with_count((token.kind.count() + ahead) as usize),
                    position: token.position,
                },
            ] + decoded_from(pixels, width, k + ahead)
        },
    }
}

/// A run of quiet pairs ends inside the image.
pub proof fn lemma_quiet_pairs_bound(pixels: Seq<Pixel>, k: int)
    requires
        0 <= k < pixels.len(),
    ensures
        k + quiet_pairs(pixels, k) < pixels.len(),
    decreases pixels.len() - k,
{
    if k + 1 < pixels.len() && carried(pixels, k) is None {
        lemma_quiet_pairs_bound(pixels, k + 1);
    }
}

/// Reads the tokens that an image carries.
pub fn decode(image: &Image) -> (tokens: Vec<Token>)
    requires
        image.wf(),
    ensures
        tokens@ == decoded(image.pixels@, image.width as int),
{
    let mut tokens: Vec<Token> = Vec::new();
    let n = image.pixels.len();
    let mut cursor = Position::new(0, 0);
    let mut run: Option<Token> = None;
    let mut k: usize = 0;
    let ghost pixels = image.pixels@;
    let ghost width = image.width as int;
    proof {
        assert(n > 0 ==> width > 0) by (nonlinear_arith)
            requires
                n == width * image.height,
                width >= 0,
        ;
    }
    while n > 0 && k < n - 1
        invariant
            image.wf(),
            n == pixels.len(),
            pixels == image.pixels@,
            width == image.width,
            n > 0 ==> k < n && cursor.1 < width,
            k == cursor.0 * width + cursor.1,
            run matches Some(token) ==> token.kind.carries_count() && token.kind.count() <= k,
            tokens@ + pending(pixels, width, run, k as int) == decoded(pixels, width),
        decreases n - k,
    {
        proof {
            lemma_fundamental_div_mod_converse(k as int, width, cursor.0 as int, cursor.1 as int);
            lemma_quiet_pairs_bound(pixels, k as int);
            lemma_quiet_pairs_bound(pixels, k + 1);
            assert(cursor.0 * width <= k);
            assert(cursor.0 < image.height) by (nonlinear_arith)
                requires
                    cursor.0 * width + cursor.1 < image.width * image.height,
                    width == image.width,
                    0 <= cursor.1,
            ;
        }
        cursor.increment_offset();
        let here = cursor;
        match pixel_distance(&image.pixels[k], &image.pixels[k + 1]) {
            Some(distance) => {
                if let Some(token) = run {
                    tokens.push(token);
                }
                run = None;
                let kind = distance_to_kind(distance).unwrap();
                match kind {
                    TokenKind::Increment(_)
                    | TokenKind::Decrement(_)
                    | TokenKind::Right(_)
                    | TokenKind::Left(_) => {
                        run = Some(Token::new(kind, here));
                    },
                    TokenKind::EOF => {
                        tokens.push(Token::new(kind, here));
                        return tokens;
                    },
                    _ => {
                        tokens.push(Token::new(kind, here));
                    },
                }
            },
            None => {
                if let Some(mut token) = run {
                    increase_kind(&mut token.kind, 1);
                    run = Some(token);
                }
            },
        }
        if cursor.offset() == image.width {
            cursor.increment_line_number();
        }
        k += 1;
        proof {
            assert((cursor.0 - 1) * width + width == cursor.0 * width) by (nonlinear_arith);
        }
    }
    if let Some(token) = run {
        tokens.push(token);
    }
    tokens
}

/// The pixel that follows `pixel` at `distance`: each channel moved by it.
pub open spec fn pixel_encoded(distance: u8, pixel: Pixel) -> Pixel {
    Pixel(
        [
            channel_encoded(pixel.0[0], distance) as u8,
            channel_encoded(pixel.0[1], distance) as u8,
            channel_encoded(pixel.0[2], distance) as u8,
            channel_encoded(pixel.0[3], distance) as u8,
        ],
    )
}

/// The pixel with its first channel moved by one, away from the nearer end
/// of the channel's range.
pub open spec fn nudged(pixel: Pixel) -> Pixel {
    Pixel(
        [
            if pixel.0[0] > u8::MAX / 2 {
                (pixel.0[0] - 1) as u8
            } else {
                (pixel.0[0] + 1) as u8
            },
            pixel.0[1],
            pixel.0[2],
            pixel.0[3],
        ],
    )
}

/// The pixels after `steps` pairs, from the pair that starts at pixel `i` on,
/// have been made quiet in turn: where a pair carries a distance, its second
/// pixel is nudged. The work ends early at the last pixel.
pub open spec fn filled(pixels: Seq<Pixel>, i: int, steps: nat) -> Seq<Pixel>
    decreases steps,
{
    if steps > 0 && 0 <= i && i + 1 < pixels.len() {
        let quiet = if carried(pixels, i) is Some {
            pixels.update(i + 1, nudged(pixels[i + 1]))
        } else {
            pixels
        };
        filled(quiet, i + 1, (steps - 1) as nat)
    } else {
        pixels
    }
}

/// How many pixels a token of this kind takes after the pixel it starts at:
/// the one that carries its distance, and one for each repeat it counts.
pub open spec fn span(kind: TokenKind) -> int {
    1 + kind.count()
}

/// The pixels after one token has been written at pixel `i`: the next pixel
/// is put at the distance of the kind, and as many pairs after it as the
/// kind counts repeats are made quiet.
pub open spec fn written(pixels: Seq<Pixel>, kind: TokenKind, i: int) -> Seq<Pixel> {
    filled(
        pixels.update(i + 1, pixel_encoded(distance_of_kind(kind), pixels[i])),
        i + 1,
        kind.count() as nat,
    )
}

/// The pixels after the tokens from token `j` on have been written from
/// pixel `i` on. Each token puts its distance between pixel `i` and the next
/// one, then makes quiet as many pairs as it counts repeats. Writing ends
/// with the tokens or at the last pixel, whichever comes first.
pub open spec fn encoded_from(pixels: Seq<Pixel>, tokens: Seq<Token>, i: int, j: int) -> Seq<
    Pixel,
>
    decreases tokens.len() - j,
{
    if 0 <= j < tokens.len() && 0 <= i && i + 1 < pixels.len() {
        let kind = tokens[j].kind;
        let room = pixels.len() - 2 - i;
        let steps = if kind.count() <= room {
            kind.count() as int
        } else {
            room
        };
        encoded_from(written(pixels, kind, i), tokens, i + 1 + steps, j + 1)
    } else {
        pixels
    }
}

/// The pixels of an image after the tokens have been written into it.
pub open spec fn encoded(pixels: Seq<Pixel>, tokens: Seq<Token>) -> Seq<Pixel> {
    encoded_from(pixels, tokens, 0, 0)
}

/// Makes quiet the `amount` pairs of pixels from the pair that starts at
/// pixel `start` on, as far as the image reaches, and returns how many pairs
/// that were.
fn quiet_fillers(pixels: &mut Vec<Pixel>, start: usize, amount: usize) -> (steps: usize)
    requires
        start < old(pixels).len(),
    ensures
        final(pixels)@ == filled(old(pixels)@, start as int, amount as nat),
        final(pixels).len() == old(pixels).len(),
        steps == if amount <= old(pixels).len() - 1 - start {
            amount as int
        } else {
            old(pixels).len() - 1 - start
        },
{
    let n = pixels.len();
    let mut i = start;
    let mut done: usize = 0;
    while done < amount && i < n - 1
        invariant
            n == pixels.len(),
            n == old(pixels).len(),
            start <= i < n,
            done <= amount,
            i == start + done,
            filled(pixels@, i as int, (amount - done) as nat) == filled(
                old(pixels)@,
                start as int,
                amount as nat,
            ),
        decreases amount - done,
    {
        let pixel = pixels[i];
        let next_pixel = pixels[i + 1];
        if let Some(_) = pixel_distance(&pixel, &next_pixel) {
            let first = next_pixel.0[0];
            let moved = if first > u8::MAX / 2 {
                first - 1
            } else {
                first + 1
            };
            let quiet = Pixel([moved, next_pixel.0[1], next_pixel.0[2], next_pixel.0[3]]);
            assert(quiet.0 =~= nudged(next_pixel).0);
            pixels.set(i + 1, quiet);
        }
        i += 1;
        done += 1;
    }
    done
}

/// Writes the tokens into the image.
pub fn encode(image: &mut Image, tokens: &Vec<Token>)
    ensures
        final(image).width == old(image).width,
        final(image).height == old(image).height,
        final(image).pixels@ == encoded(old(image).pixels@, tokens@),
        final(image).pixels@.len() == old(image).pixels@.len(),
{
    let n = image.pixels.len();
    let mut i: usize = 0;
    let mut j: usize = 0;
    while j < tokens.len() && n > 0 && i < n - 1
        invariant
            image.width == old(image).width,
            image.height == old(image).height,
            n == image.pixels.len(),
            n == old(image).pixels.len(),
            j <= tokens.len(),
            encoded_from(image.pixels@, tokens@, i as int, j as int) == encoded(
                old(image).pixels@,
                tokens@,
            ),
        decreases tokens.len() - j,
    {
        let pixel = image.pixels[i];
        let token = &tokens[j];
        let distance = kind_to_distance(token.kind());
        let marked = Pixel(encoded_pixel(distance, &pixel.0));
        assert(marked.0 =~= pixel_encoded(distance, pixel).0);
        image.pixels.set(i + 1, marked);
        match token.kind() {
            TokenKind::Increment(amount)
            | TokenKind::Decrement(amount)
            | TokenKind::Left(amount)
            | TokenKind::Right(amount) => {
                let steps = quiet_fillers(&mut image.pixels, i + 1, *amount);
                i += steps;
            },
            TokenKind::LoopStart
            | TokenKind::LoopEnd
            | TokenKind::PutChar
            | TokenKind::ReadChar
            | TokenKind::EOF => {},
        }
        i += 1;
        j += 1;
    }
}

} // verus!
