use brainfreeze::codec::{
    decode, distance_to_kind, encode, encode_channel, encoded_pixel, increase_kind, kind_count,
    kind_to_distance, pixel_distance, Image, Pixel, MAXIMUM_PIXEL_DISTANCE, MINIMUM_PIXEL_DISTANCE,
};
use brainfreeze::lexer::{Position, Token, TokenKind};

fn uniform(width: u32, height: u32, pixel: [u8; 4]) -> Image {
    Image { width, height, pixels: vec![Pixel(pixel); (width * height) as usize] }
}

fn row(values: &[u8]) -> Image {
    let pixels = values.iter().map(|value| Pixel([*value; 4])).collect();
    Image { width: values.len() as u32, height: 1, pixels }
}

fn kinds(tokens: &[Token]) -> Vec<TokenKind> {
    tokens.iter().map(|token| *token.kind()).collect()
}

fn at_origin(kinds: &[TokenKind]) -> Vec<Token> {
    kinds.iter().map(|kind| Token::new(*kind, Position::new(0, 0))).collect()
}

fn all_kinds() -> Vec<TokenKind> {
    vec![
        TokenKind::Increment(0),
        TokenKind::Decrement(0),
        TokenKind::Right(0),
        TokenKind::Left(0),
        TokenKind::LoopStart,
        TokenKind::LoopEnd,
        TokenKind::PutChar,
        TokenKind::ReadChar,
        TokenKind::EOF,
    ]
}

#[test]
fn band_is_ten_to_eighteen() {
    assert_eq!(MINIMUM_PIXEL_DISTANCE, 10);
    assert_eq!(MAXIMUM_PIXEL_DISTANCE, 18);
}

#[test]
fn distance_of_equal_deltas_in_band() {
    let distance = pixel_distance(&Pixel([10, 10, 10, 10]), &Pixel([28, 28, 28, 28]));
    assert_eq!(distance, Some(18));
    assert_eq!(distance_to_kind(18), Some(TokenKind::EOF));
}

#[test]
fn distance_of_disagreeing_deltas() {
    assert_eq!(pixel_distance(&Pixel([10, 10, 10, 10]), &Pixel([15, 20, 15, 15])), None);
}

#[test]
fn distance_is_taken_in_both_directions() {
    assert_eq!(pixel_distance(&Pixel([40, 40, 40, 40]), &Pixel([28, 28, 28, 28])), Some(12));
    assert_eq!(pixel_distance(&Pixel([40, 28, 40, 28]), &Pixel([28, 40, 28, 40])), Some(12));
}

#[test]
fn distance_outside_the_band_is_none() {
    for delta in 0..=255u8 {
        let found = pixel_distance(&Pixel([0, 0, 0, 0]), &Pixel([delta; 4]));
        if (10..=18).contains(&delta) {
            assert_eq!(found, Some(delta));
        } else {
            assert_eq!(found, None);
        }
    }
}

#[test]
fn distance_needs_every_channel() {
    for channel in 0..4 {
        let mut other = [20u8; 4];
        other[channel] = 21;
        assert_eq!(pixel_distance(&Pixel([10; 4]), &Pixel(other)), None);
    }
}

#[test]
fn kinds_and_distances_are_in_the_fixed_order() {
    let kinds = all_kinds();
    for (step, kind) in kinds.iter().enumerate() {
        assert_eq!(kind_to_distance(kind), 10 + step as u8);
        assert_eq!(distance_to_kind(10 + step as u8), Some(*kind));
    }
}

#[test]
fn kind_comes_back_from_its_distance_without_its_count() {
    assert_eq!(distance_to_kind(kind_to_distance(&TokenKind::Increment(7))), Some(TokenKind::Increment(0)));
    assert_eq!(distance_to_kind(kind_to_distance(&TokenKind::Left(usize::MAX))), Some(TokenKind::Left(0)));
    for distance in 10..=18u8 {
        let kind = distance_to_kind(distance).unwrap();
        assert_eq!(kind_to_distance(&kind), distance);
    }
}

#[test]
fn distance_outside_the_band_has_no_kind() {
    assert_eq!(distance_to_kind(0), None);
    assert_eq!(distance_to_kind(9), None);
    assert_eq!(distance_to_kind(19), None);
    assert_eq!(distance_to_kind(255), None);
}

#[test]
fn kind_count_is_the_count_or_one() {
    assert_eq!(kind_count(&TokenKind::Increment(5)), 5);
    assert_eq!(kind_count(&TokenKind::Decrement(0)), 0);
    assert_eq!(kind_count(&TokenKind::Right(7)), 7);
    assert_eq!(kind_count(&TokenKind::Left(1)), 1);
    assert_eq!(kind_count(&TokenKind::LoopStart), 1);
    assert_eq!(kind_count(&TokenKind::EOF), 1);
}

#[test]
fn increase_kind_adds_to_a_count_only() {
    let mut kind = TokenKind::Right(2);
    increase_kind(&mut kind, 3);
    assert_eq!(kind, TokenKind::Right(5));
    let mut kind = TokenKind::Increment(0);
    increase_kind(&mut kind, 1);
    assert_eq!(kind, TokenKind::Increment(1));
    let mut kind = TokenKind::PutChar;
    increase_kind(&mut kind, 3);
    assert_eq!(kind, TokenKind::PutChar);
}

#[test]
fn channel_is_raised_unless_that_reaches_the_top() {
    assert_eq!(encode_channel(100, 10), 110);
    assert_eq!(encode_channel(0, 18), 18);
    assert_eq!(encode_channel(244, 10), 254);
    assert_eq!(encode_channel(245, 10), 235);
    assert_eq!(encode_channel(250, 10), 240);
    assert_eq!(encode_channel(255, 18), 237);
}

#[test]
fn pixel_is_encoded_channel_by_channel() {
    assert_eq!(encoded_pixel(18, &[100, 100, 100, 255]), [118, 118, 118, 237]);
    assert_eq!(encoded_pixel(10, &[0, 245, 244, 255]), [10, 235, 254, 245]);
}

#[test]
fn encoded_pixel_carries_its_distance() {
    for distance in 10..=18u8 {
        for value in [0u8, 1, 100, 127, 128, 236, 237, 244, 245, 254, 255] {
            let pixel = [value, 255 - value, value / 2, 255];
            let next = encoded_pixel(distance, &pixel);
            assert_eq!(pixel_distance(&Pixel(pixel), &Pixel(next)), Some(distance));
        }
    }
}

#[test]
fn increment_two_then_end_in_a_uniform_row() {
    let mut image = uniform(5, 1, [100, 100, 100, 255]);
    let tokens = vec![
        Token::new(TokenKind::Increment(2), Position::new(0, 0)),
        Token::new(TokenKind::EOF, Position::new(0, 4)),
    ];
    encode(&mut image, &tokens);
    assert_eq!(image.width, 5);
    assert_eq!(image.height, 1);
    assert_eq!(
        image.pixels,
        vec![
            Pixel([100, 100, 100, 255]),
            Pixel([110, 110, 110, 245]),
            Pixel([101, 100, 100, 255]),
            Pixel([100, 100, 100, 255]),
            Pixel([118, 118, 118, 237]),
        ]
    );
    assert_eq!(pixel_distance(&image.pixels[0], &image.pixels[1]), Some(10));
    assert_eq!(pixel_distance(&image.pixels[1], &image.pixels[2]), None);
    assert_eq!(pixel_distance(&image.pixels[2], &image.pixels[3]), None);
    assert_eq!(pixel_distance(&image.pixels[3], &image.pixels[4]), Some(18));
    let read_back = decode(&image);
    assert_eq!(kinds(&read_back), vec![TokenKind::Increment(2), TokenKind::EOF]);
    assert_eq!(*read_back[0].position(), Position::new(0, 1));
    assert_eq!(*read_back[1].position(), Position::new(0, 4));
}

#[test]
fn filler_in_the_upper_half_is_nudged_down() {
    let mut image = row(&[200, 0, 224, 50, 50]);
    encode(&mut image, &at_origin(&[TokenKind::Right(1), TokenKind::EOF]));
    assert_eq!(
        image.pixels,
        vec![
            Pixel([200; 4]),
            Pixel([212; 4]),
            Pixel([223, 224, 224, 224]),
            Pixel([241, 242, 242, 242]),
            Pixel([50; 4]),
        ]
    );
    assert_eq!(kinds(&decode(&image)), vec![TokenKind::Right(1), TokenKind::EOF]);
}

#[test]
fn fillers_carry_no_distance_after_encoding() {
    let values: Vec<u8> = (0..40u32).map(|i| (i * 10 % 256) as u8).collect();
    let mut image = row(&values);
    let tokens = at_origin(&[TokenKind::Increment(9), TokenKind::Left(12), TokenKind::EOF]);
    encode(&mut image, &tokens);
    assert_eq!(pixel_distance(&image.pixels[0], &image.pixels[1]), Some(10));
    for k in 1..10 {
        assert_eq!(pixel_distance(&image.pixels[k], &image.pixels[k + 1]), None);
    }
    assert_eq!(pixel_distance(&image.pixels[10], &image.pixels[11]), Some(13));
    for k in 11..23 {
        assert_eq!(pixel_distance(&image.pixels[k], &image.pixels[k + 1]), None);
    }
    assert_eq!(pixel_distance(&image.pixels[23], &image.pixels[24]), Some(18));
    assert_eq!(
        kinds(&decode(&image)),
        vec![TokenKind::Increment(9), TokenKind::Left(12), TokenKind::EOF]
    );
}

#[test]
fn every_kind_makes_the_round_trip() {
    let program = vec![
        TokenKind::Increment(3),
        TokenKind::LoopStart,
        TokenKind::Right(2),
        TokenKind::Decrement(1),
        TokenKind::PutChar,
        TokenKind::ReadChar,
        TokenKind::Left(2),
        TokenKind::Increment(0),
        TokenKind::LoopEnd,
        TokenKind::EOF,
    ];
    for base in [[0u8, 0, 0, 0], [100, 100, 100, 255], [255, 255, 255, 255], [130, 7, 250, 90]] {
        let mut image = uniform(6, 4, base);
        encode(&mut image, &at_origin(&program));
        assert_eq!(kinds(&decode(&image)), program);
    }
}

#[test]
fn round_trip_where_the_last_count_fills_the_image() {
    let mut image = uniform(3, 2, [9, 9, 9, 9]);
    let program = vec![TokenKind::PutChar, TokenKind::Decrement(3)];
    encode(&mut image, &at_origin(&program));
    assert_eq!(kinds(&decode(&image)), program);
}

#[test]
fn last_count_grows_over_a_quiet_rest() {
    let mut image = row(&[0, 1, 2, 3, 4, 5, 6, 7, 8, 9]);
    encode(&mut image, &at_origin(&[TokenKind::Increment(2)]));
    assert_eq!(kinds(&decode(&image)), vec![TokenKind::Increment(8)]);
}

#[test]
fn last_token_without_count_may_be_followed_by_an_accident() {
    let mut image = uniform(3, 1, [100, 100, 100, 100]);
    encode(&mut image, &at_origin(&[TokenKind::LoopStart]));
    assert_eq!(kinds(&decode(&image)), vec![TokenKind::LoopStart, TokenKind::LoopStart]);
    let mut image = row(&[100, 100, 50]);
    encode(&mut image, &at_origin(&[TokenKind::LoopStart]));
    assert_eq!(kinds(&decode(&image)), vec![TokenKind::LoopStart]);
}

#[test]
fn tokens_after_the_end_of_the_program_are_written_but_not_read() {
    let mut image = uniform(8, 1, [30, 30, 30, 30]);
    let program = vec![TokenKind::PutChar, TokenKind::EOF, TokenKind::ReadChar, TokenKind::LoopEnd];
    encode(&mut image, &at_origin(&program));
    assert_eq!(pixel_distance(&image.pixels[2], &image.pixels[3]), Some(17));
    assert_eq!(pixel_distance(&image.pixels[3], &image.pixels[4]), Some(15));
    assert_eq!(kinds(&decode(&image)), vec![TokenKind::PutChar, TokenKind::EOF]);
}

#[test]
fn decoding_stops_at_the_end_of_the_program() {
    let image = row(&[0, 18, 28, 42]);
    let tokens = decode(&image);
    assert_eq!(tokens, vec![Token::new(TokenKind::EOF, Position::new(0, 1))]);
    let cut = row(&[0, 18]);
    assert_eq!(decode(&cut), tokens);
}

#[test]
fn encoding_stops_with_the_pixels() {
    let mut image = row(&[0, 0, 0]);
    encode(&mut image, &at_origin(&[TokenKind::Increment(5), TokenKind::EOF]));
    assert_eq!(image.pixels, vec![Pixel([0; 4]), Pixel([10; 4]), Pixel([1, 0, 0, 0])]);
    assert_eq!(kinds(&decode(&image)), vec![TokenKind::Increment(1)]);
    let mut image = row(&[7]);
    encode(&mut image, &at_origin(&[TokenKind::EOF]));
    assert_eq!(image.pixels, vec![Pixel([7; 4])]);
    let mut image = row(&[]);
    encode(&mut image, &at_origin(&[TokenKind::EOF]));
    assert_eq!(image.pixels, vec![]);
}

#[test]
fn encoding_stops_with_the_tokens() {
    let mut image = row(&[1, 2, 3, 4]);
    encode(&mut image, &Vec::new());
    assert_eq!(image, row(&[1, 2, 3, 4]));
    encode(&mut image, &at_origin(&[TokenKind::LoopEnd]));
    assert_eq!(image, row(&[1, 16, 3, 4]));
}

#[test]
fn image_without_distances_decodes_to_nothing() {
    assert_eq!(decode(&uniform(0, 0, [0; 4])), vec![]);
    assert_eq!(decode(&uniform(1, 1, [0; 4])), vec![]);
    assert_eq!(decode(&uniform(4, 4, [77; 4])), vec![]);
    assert_eq!(decode(&row(&[0, 9, 28, 47, 255])), vec![]);
}

#[test]
fn positions_follow_the_grid() {
    let mut image = row(&[0, 14, 29, 47]);
    image.width = 2;
    image.height = 2;
    assert_eq!(
        decode(&image),
        vec![
            Token::new(TokenKind::LoopStart, Position::new(0, 1)),
            Token::new(TokenKind::LoopEnd, Position::new(0, 2)),
            Token::new(TokenKind::EOF, Position::new(1, 1)),
        ]
    );
}

#[test]
fn run_keeps_the_place_where_it_began() {
    let mut image = row(&[0, 0, 10, 10, 10, 10, 28, 28]);
    image.width = 4;
    image.height = 2;
    assert_eq!(
        decode(&image),
        vec![
            Token::new(TokenKind::Increment(3), Position::new(0, 2)),
            Token::new(TokenKind::EOF, Position::new(1, 2)),
        ]
    );
}

#[test]
fn open_run_is_closed_at_the_last_pixel() {
    let image = row(&[0, 12, 12, 13]);
    assert_eq!(decode(&image), vec![Token::new(TokenKind::Right(2), Position::new(0, 1))]);
    let image = row(&[5, 5, 16]);
    assert_eq!(decode(&image), vec![Token::new(TokenKind::Decrement(0), Position::new(0, 2))]);
}

#[test]
fn buffer_and_grid_convert_both_ways() {
    let raw = vec![1, 2, 3, 4, 5, 6, 7, 8];
    let image = Image::from_raw(2, 1, &raw).unwrap();
    assert_eq!(image.width, 2);
    assert_eq!(image.height, 1);
    assert_eq!(image.pixels, vec![Pixel([1, 2, 3, 4]), Pixel([5, 6, 7, 8])]);
    assert_eq!(image.to_raw(), raw);
    assert_eq!(Image::from_raw(1, 2, &raw).unwrap().pixels, image.pixels);
    assert_eq!(Image::from_raw(2, 2, &raw), None);
    assert_eq!(Image::from_raw(1, 1, &raw), None);
    assert_eq!(Image::from_raw(0, 5, &[]).unwrap().pixels, vec![]);
    assert_eq!(Image::from_raw(u32::MAX, u32::MAX, &raw), None);
}
