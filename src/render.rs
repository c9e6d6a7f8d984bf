use vstd::prelude::*;

use image::codecs::png::{CompressionType, FilterType, PngEncoder};
use image::{Rgb, RgbImage};

use crate::replay::{cells_int, lemma_replay_bounds, placements, replay_from};
use crate::solver::Solution;
use crate::{empty_rows, BOARD_SIZE, SIZE};

verus! {

/// Side of the square drawn for one cell, in pixels.
pub const SQUARE_SIZE: u32 = 10;

/// Side of a whole picture, in pixels.
pub const PICTURE_SIZE: u32 = 450;

/// An RGB picture.
#[verifier::external_body]
pub struct Picture {
    img: RgbImage,
}

/// The width of a picture in pixels.
pub uninterp spec fn picture_width(p: Picture) -> u32;

/// The height of a picture in pixels.
pub uninterp spec fn picture_height(p: Picture) -> u32;

/// The color of each pixel `(x, y)` of a picture, as red, green and blue.
pub uninterp spec fn picture_pixels(p: Picture) -> Map<(u32, u32), (u8, u8, u8)>;

/// The bytes of the PNG file, at best compression with adaptive filtering, of a picture
/// of the given size and pixels.
pub uninterp spec fn png_of(width: u32, height: u32, pixels: Map<(u32, u32), (u8, u8, u8)>) -> Seq<u8>;

/// Every pixel of a `width` by `height` picture has the color `c`, and no other exists.
pub open spec fn all_pixels(pixels: Map<(u32, u32), (u8, u8, u8)>, width: u32, height: u32, c: (u8, u8, u8)) -> bool {
    &&& forall|q: (u32, u32)| #[trigger] pixels.contains_key(q) <==> (q.0 < width && q.1 < height)
    &&& forall|q: (u32, u32)| q.0 < width && q.1 < height ==> #[trigger] pixels[q] == c
}

/// Relies on ImageBuffer::new: a picture of the given size with every subpixel zero.
/// It panics only where the buffer's length overflows `usize`.
#[verifier::external_body]
fn blank_picture(width: u32, height: u32) -> (r: Picture)
    requires
        width as int * height as int * 3 <= usize::MAX as int,
    ensures
        picture_width(r) == width,
        picture_height(r) == height,
        all_pixels(picture_pixels(r), width, height, (0u8, 0u8, 0u8)),
{
    Picture { img: RgbImage::new(width, height) }
}

/// Relies on ImageBuffer::put_pixel: sets the one pixel `(x, y)`; it panics outside the
/// picture's bounds.
#[verifier::external_body]
fn set_pixel(p: &mut Picture, x: u32, y: u32, c: (u8, u8, u8))
    requires
        x < picture_width(*old(p)),
        y < picture_height(*old(p)),
    ensures
        picture_width(*final(p)) == picture_width(*old(p)),
        picture_height(*final(p)) == picture_height(*old(p)),
        picture_pixels(*final(p)) == picture_pixels(*old(p)).insert((x, y), c),
{
    p.img.put_pixel(x, y, Rgb([c.0, c.1, c.2]));
}

/// Relies on PngEncoder::new_with_quality and ImageBuffer::write_with_encoder: the PNG
/// file of the picture, written into memory; `None` where the encoder reports an error.
/// Written into memory, the encoder fails only on a zero width or height, or on a chunk
/// longer than `i32::MAX` bytes, which no picture of at most 4096 by 4096 pixels makes.
#[verifier::external_body]
fn encode_png(p: &Picture) -> (r: Option<Vec<u8>>)
    ensures
        0 < picture_width(*p) <= 4096 && 0 < picture_height(*p) <= 4096 ==> r is Some,
        r matches Some(b) ==> b@ == png_of(picture_width(*p), picture_height(*p), picture_pixels(*p)),
{
    let mut out: Vec<u8> = Vec::new();
    let encoder = PngEncoder::new_with_quality(&mut out, CompressionType::Best, FilterType::Adaptive);
    match p.img.write_with_encoder(encoder) {
        Ok(()) => Some(out),
        Err(_) => None,
    }
}

/// The color of the pieces of size `card`.
pub open spec fn piece_color(card: int) -> (u8, u8, u8) {
    if card == 1 {
        (0xefu8, 0x44u8, 0x44u8)
    } else if card == 2 {
        (0xeau8, 0xb3u8, 0x08u8)
    } else if card == 3 {
        (0x06u8, 0xb6u8, 0xd4u8)
    } else if card == 4 {
        (0x8bu8, 0x5cu8, 0xf6u8)
    } else if card == 5 {
        (0x22u8, 0xc5u8, 0x5eu8)
    } else if card == 6 {
        (0xd9u8, 0x46u8, 0xefu8)
    } else if card == 7 {
        (0x3bu8, 0x82u8, 0xf6u8)
    } else if card == 8 {
        (0xf4u8, 0x3fu8, 0x5eu8)
    } else {
        (0xf9u8, 0x73u8, 0x16u8)
    }
}

/// The color of the pieces of size `card`, for sizes `1..=SIZE`.
pub fn color_of(card: u8) -> (r: (u8, u8, u8))
    requires
        1 <= card <= SIZE,
    ensures
        r == piece_color(card as int),
{
    match card {
        1 => (0xef, 0x44, 0x44),
        2 => (0xea, 0xb3, 0x08),
        3 => (0x06, 0xb6, 0xd4),
        4 => (0x8b, 0x5c, 0xf6),
        5 => (0x22, 0xc5, 0x5e),
        6 => (0xd9, 0x46, 0xef),
        7 => (0x3b, 0x82, 0xf6),
        8 => (0xf4, 0x3f, 0x5e),
        _ => (0xf9, 0x73, 0x16),
    }
}

/// The color that a piece of size `card` at cell `(x, y)` gives pixel `(px, py)`: black on
/// the one-pixel border of its square, its own color inside, none outside.
pub open spec fn square_color(card: int, x: int, y: int, px: int, py: int) -> Option<(u8, u8, u8)> {
    if x * SQUARE_SIZE <= px < (x + card) * SQUARE_SIZE && y * SQUARE_SIZE <= py < (y + card) * SQUARE_SIZE {
        if px == x * SQUARE_SIZE || py == y * SQUARE_SIZE || px == (x + card) * SQUARE_SIZE - 1
            || py == (y + card) * SQUARE_SIZE - 1 {
            Some((0u8, 0u8, 0u8))
        } else {
            Some(piece_color(card))
        }
    } else {
        None
    }
}

/// The color of pixel `(px, py)` once the first `k` pieces are drawn, in order, on a black
/// picture: that of the last of them whose square holds it, black if none does.
pub open spec fn painted(sol: Seq<u8>, cells: Seq<(int, int)>, k: int, px: int, py: int) -> (u8, u8, u8)
    decreases k,
{
    if k <= 0 {
        (0u8, 0u8, 0u8)
    } else {
        match square_color(sol[k - 1] as int, cells[k - 1].0, cells[k - 1].1, px, py) {
            Some(c) => c,
            None => painted(sol, cells, k - 1, px, py),
        }
    }
}


/// The picture of a tiling whose pieces lie at `cells`: each pixel colored as `painted`
/// says once every piece is drawn.
pub open spec fn drawing(sol: Seq<u8>, cells: Seq<(int, int)>) -> Map<(u32, u32), (u8, u8, u8)> {
    Map::new(
        |q: (u32, u32)| q.0 < PICTURE_SIZE && q.1 < PICTURE_SIZE,
        |q: (u32, u32)| painted(sol, cells, sol.len() as int, q.0 as int, q.1 as int),
    )
}

/// Draws a tiling: each piece where the replay of the search order puts it, as a square of
/// its color with a black one-pixel border. The solution must replay: every size that of
/// a piece, each fitting at the cell to fill, with a cell left for each next piece.
pub fn render_solution(sol: &Solution) -> (r: Picture)
    requires
        replay_from(empty_rows(), sol@, 0, 0, 0) is Some,
    ensures
        picture_width(r) == PICTURE_SIZE,
        picture_height(r) == PICTURE_SIZE,
        picture_pixels(r) == drawing(sol@, replay_from(empty_rows(), sol@, 0, 0, 0)->0),
{
    let cells = placements(sol).unwrap();
    let ghost cs = cells_int(cells@);
    proof {
        lemma_replay_bounds(empty_rows(), sol@, 0, 0, 0);
    }
    let mut pic = blank_picture(PICTURE_SIZE, PICTURE_SIZE);
    let mut k: usize = 0;
    while k < BOARD_SIZE
        invariant
            k <= BOARD_SIZE,
            sol@.len() == BOARD_SIZE,
            cells@.len() == BOARD_SIZE,
            cs == cells_int(cells@),
            cs == replay_from(empty_rows(), sol@, 0, 0, 0)->0,
            forall|j: int|
                0 <= j < BOARD_SIZE ==> {
                    &&& 1 <= #[trigger] sol@[0 + j] <= SIZE
                    &&& 0 <= cs[j].0
                    &&& cs[j].0 + sol@[0 + j] <= BOARD_SIZE
                    &&& 0 <= cs[j].1
                    &&& cs[j].1 + sol@[0 + j] <= BOARD_SIZE
                },
            picture_width(pic) == PICTURE_SIZE,
            picture_height(pic) == PICTURE_SIZE,
            forall|q: (u32, u32)|
                #[trigger] picture_pixels(pic).contains_key(q) <==> (q.0 < PICTURE_SIZE && q.1
                    < PICTURE_SIZE),
            forall|q: (u32, u32)|
                q.0 < PICTURE_SIZE && q.1 < PICTURE_SIZE ==> #[trigger] picture_pixels(pic)[q]
                    == painted(sol@, cs, k as int, q.0 as int, q.1 as int),
        decreases BOARD_SIZE - k,
    {
        let card = sol[k];
        let (x, y) = cells[k];
        assert(sol@[0 + k as int] == card);
        assert(cs[k as int] == (x as int, y as int));
        let sx: u32 = x as u32 * SQUARE_SIZE;
        let ex: u32 = (x as u32 + card as u32) * SQUARE_SIZE;
        let sy: u32 = y as u32 * SQUARE_SIZE;
        let ey: u32 = (y as u32 + card as u32) * SQUARE_SIZE;
        let color = color_of(card);
        let mut py: u32 = sy;
        while py < ey
            invariant
                sy <= py <= ey,
                sx < ex <= PICTURE_SIZE,
                sy < ey <= PICTURE_SIZE,
                k < BOARD_SIZE,
                sol@.len() == BOARD_SIZE,
                sol@[k as int] == card,
                cs[k as int] == (x as int, y as int),
                sx == x * SQUARE_SIZE,
                ex == (x + card) * SQUARE_SIZE,
                sy == y * SQUARE_SIZE,
                ey == (y + card) * SQUARE_SIZE,
                color == piece_color(card as int),
                picture_width(pic) == PICTURE_SIZE,
                picture_height(pic) == PICTURE_SIZE,
                forall|q: (u32, u32)|
                    #[trigger] picture_pixels(pic).contains_key(q) <==> (q.0 < PICTURE_SIZE && q.1
                        < PICTURE_SIZE),
                forall|q: (u32, u32)|
                    q.0 < PICTURE_SIZE && q.1 < PICTURE_SIZE ==> #[trigger] picture_pixels(pic)[q]
                        == if sx <= q.0 < ex && sy <= q.1 < py {
                        painted(sol@, cs, k + 1, q.0 as int, q.1 as int)
                    } else {
                        painted(sol@, cs, k as int, q.0 as int, q.1 as int)
                    },
            decreases ey - py,
        {
            let mut px: u32 = sx;
            while px < ex
                invariant
                    sy <= py < ey,
                    sx <= px <= ex,
                    sx < ex <= PICTURE_SIZE,
                    sy < ey <= PICTURE_SIZE,
                    k < BOARD_SIZE,
                    sol@.len() == BOARD_SIZE,
                    sol@[k as int] == card,
                    cs[k as int] == (x as int, y as int),
                    sx == x * SQUARE_SIZE,
                    ex == (x + card) * SQUARE_SIZE,
                    sy == y * SQUARE_SIZE,
                    ey == (y + card) * SQUARE_SIZE,
                    color == piece_color(card as int),
                    picture_width(pic) == PICTURE_SIZE,
                    picture_height(pic) == PICTURE_SIZE,
                    forall|q: (u32, u32)|
                        #[trigger] picture_pixels(pic).contains_key(q) <==> (q.0 < PICTURE_SIZE
                            && q.1 < PICTURE_SIZE),
                    forall|q: (u32, u32)|
                        q.0 < PICTURE_SIZE && q.1 < PICTURE_SIZE ==> #[trigger] picture_pixels(
                            pic,
                        )[q] == if sx <= q.0 < ex && (sy <= q.1 < py || (q.1 == py && q.0
                            < px)) {
                            painted(sol@, cs, k + 1, q.0 as int, q.1 as int)
                        } else {
                            painted(sol@, cs, k as int, q.0 as int, q.1 as int)
                        },
                decreases ex - px,
            {
                let c = if py == sy || px == sx || px == ex - 1 || py == ey - 1 {
                    (0u8, 0u8, 0u8)
                } else {
                    color
                };
                assert(painted(sol@, cs, k + 1, px as int, py as int) == c);
                set_pixel(&mut pic, px, py, c);
                px = px + 1;
            }
            py = py + 1;
        }
        k = k + 1;
    }
    assert(picture_pixels(pic) =~= drawing(sol@, cs));
    pic
}

/// The PNG file of the drawing of a tiling; the solution must replay, as for
/// `render_solution`.
pub fn solution_png(sol: &Solution) -> (r: Vec<u8>)
    requires
        replay_from(empty_rows(), sol@, 0, 0, 0) is Some,
    ensures
        r@ == png_of(
            PICTURE_SIZE,
            PICTURE_SIZE,
            drawing(sol@, replay_from(empty_rows(), sol@, 0, 0, 0)->0),
        ),
{
    let pic = render_solution(sol);
    encode_png(&pic).unwrap()
}

} // verus!
