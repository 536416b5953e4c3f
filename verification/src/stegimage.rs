//! Hiding bit chunks in the low bits of the pixels of a lossless image, and
//! reading them back.
use crate::bits::{bits_value, value_bits};
use crate::bytetools::{be_bytes, bytes_to_u24, get_bits, mask, u24_of, u24_to_bytes};
use crate::errors::SteganerError;
use crate::fileio::Chunk;
use crate::host_image::{
    has_rgb8, has_rgba8, image_channels, image_dimensions, image_height, image_samples,
    image_width, put_rgb8_pixel, put_rgba8_pixel, rgb8_pixel, rgba8_pixel,
};
use image::DynamicImage;
use vstd::arithmetic::power2::{lemma2_to64, lemma_pow2_pos, pow2};
use vstd::prelude::*;

verus! {

/// Number of pixels at the start of the first row that hold the header.
pub const HEADER_PIXEL_LENGTH: u8 = 32;

/// Number of bits of the length that the header records.
pub const SIZE_LENGTH: u8 = 32;

/// Index of the last `.` of `name`, or -1 if it has none.
pub open spec fn last_dot(name: Seq<char>) -> int
    decreases name.len(),
{
    if name.len() == 0 {
        -1
    } else if name.last() == '.' {
        name.len() - 1
    } else {
        last_dot(name.drop_last())
    }
}

/// What follows the last `.` of `name`.
pub open spec fn extension_of(name: Seq<char>) -> Seq<char> {
    name.skip(last_dot(name) + 1)
}

/// Whether `letter` is `small` or `capital`.
pub open spec fn either_case(letter: char, small: char, capital: char) -> bool {
    letter == small || letter == capital
}

/// Whether `extension` is `png`, `bmp` or `ppm`, in small or capital letters.
pub open spec fn is_supported_extension(extension: Seq<char>) -> bool {
    &&& extension.len() == 3
    &&& {
        ||| {
            &&& either_case(extension[0], 'p', 'P')
            &&& either_case(extension[1], 'n', 'N')
            &&& either_case(extension[2], 'g', 'G')
        }
        ||| {
            &&& either_case(extension[0], 'b', 'B')
            &&& either_case(extension[1], 'm', 'M')
            &&& either_case(extension[2], 'p', 'P')
        }
        ||| {
            &&& either_case(extension[0], 'p', 'P')
            &&& either_case(extension[1], 'p', 'P')
            &&& either_case(extension[2], 'm', 'M')
        }
    }
}

/// The last `.` of a name, if there is one, lies inside the name.
proof fn lemma_last_dot_inside(name: Seq<char>)
    ensures
        -1 <= last_dot(name) < name.len(),
    decreases name.len(),
{
    if name.len() > 0 && name.last() != '.' {
        lemma_last_dot_inside(name.drop_last());
    }
}

/// Tells whether a file can be the host image, by the extension of its name:
/// `png`, `bmp` and `ppm` are supported, in small or capital letters. A name
/// without any `.` is an error.
pub fn supported_image(filename: &str) -> (supported: Result<bool, SteganerError>)
    ensures
        match supported {
            Ok(answer) => last_dot(filename@) >= 0 && answer == is_supported_extension(
                extension_of(filename@),
            ),
            Err(error) => last_dot(filename@) < 0 && error == SteganerError::NoExtension,
        },
{
    let length: usize = filename.unicode_len();
    let mut dot: Option<usize> = None;
    let mut i: usize = 0;
    while i < length
        invariant
            i <= length == filename@.len(),
            match dot {
                Some(index) => last_dot(filename@.take(i as int)) == index,
                None => last_dot(filename@.take(i as int)) == -1,
            },
        decreases length - i,
    {
        let letter: char = filename.get_char(i);
        proof {
            let longer = filename@.take(i + 1);
            assert(longer.drop_last() =~= filename@.take(i as int));
            assert(longer.last() == letter);
        }
        if letter == '.' {
            dot = Some(i);
        }
        i = i + 1;
    }
    proof {
        assert(filename@.take(length as int) =~= filename@);
        lemma_last_dot_inside(filename@);
    }
    match dot {
        None => Err(SteganerError::NoExtension),
        Some(index) => {
            if length - index != 4 {
                Ok(false)
            } else {
                let first: char = filename.get_char(index + 1);
                let second: char = filename.get_char(index + 2);
                let third: char = filename.get_char(index + 3);
                let png: bool = (first == 'p' || first == 'P') && (second == 'n' || second == 'N')
                    && (third == 'g' || third == 'G');
                let bmp: bool = (first == 'b' || first == 'B') && (second == 'm' || second == 'M')
                    && (third == 'p' || third == 'P');
                let ppm: bool = (first == 'p' || first == 'P') && (second == 'p' || second == 'P')
                    && (third == 'm' || third == 'M');
                Ok(png || bmp || ppm)
            }
        },
    }
}

/// Column and row of a pixel.
#[derive(Eq, PartialEq, Copy, Clone, Debug)]
pub struct Position {
    pub x: u32,
    pub y: u32,
}

/// Where the extraction of a hidden file stands.
#[derive(Eq, PartialEq, Copy, Clone, Debug)]
pub struct ReadingState {
    /// Length of the hidden file in bytes, as the header records it.
    pub hidden_file_size: u32,
    /// Number of bits hidden in each pixel.
    pub chunk_size: u8,
    /// Ordinal of the chunk that is read next.
    pub reading_position: u32,
}

impl ReadingState {
    #[must_use]
    pub fn new(hidden_file_size: u32, chunk_size: u8, reading_position: u32) -> (state: Self)
        ensures
            state == (ReadingState { hidden_file_size, chunk_size, reading_position }),
    {
        ReadingState { hidden_file_size, chunk_size, reading_position }
    }
}

/// Whether a column and row lie in the header: the first 32 pixels of the
/// first row.
pub open spec fn in_header(place: (int, int)) -> bool {
    place.1 == 0 && 0 <= place.0 < 32
}

/// Column and row of the pixel that holds the chunk of ordinal `order` in an
/// image `width` pixels wide: the pixels are taken row by row, behind the
/// header.
pub open spec fn coordinates(width: nat, order: nat) -> (int, int) {
    (((32 + order) % width) as int, ((32 + order) / width) as int)
}

/// Number of pixels behind the header.
pub open spec fn usable_pixels(width: nat, height: nat) -> int {
    width * height - 32
}

/// Whether `total` bytes can be hidden in `usable` pixels at 24 bits a pixel.
pub open spec fn fits(total: nat, usable: int) -> bool {
    8 * total <= usable * 24
}

/// Number of bits per pixel that hiding `total` bytes in `usable` pixels
/// takes: the bit count divided by the pixel count, rounded up.
pub open spec fn density(total: nat, usable: int) -> nat {
    if usable <= 0 {
        0
    } else {
        ((8 * total + usable - 1) / usable) as nat
    }
}

/// The bytes of a pixel after `length` bits `bits` were hidden in it: of the
/// 24-bit number that red, green and blue spell, the `length` low bits are
/// replaced by `bits`; what follows the three colours stays.
pub open spec fn hidden_in(samples: Seq<u8>, bits: nat, length: nat) -> Seq<u8> {
    be_bytes((u24_of(samples) / pow2(length)) * pow2(length) + bits, 3) + samples.skip(3)
}

/// The `length` bits hidden in a pixel, as a number.
pub open spec fn hidden_bits(samples: Seq<u8>, length: nat) -> nat {
    u24_of(samples) % pow2(length)
}

/// The bits that the header pixels hold, one in each pixel.
pub open spec fn header_bits(pixels: Map<(int, int), Seq<u8>>) -> Seq<bool> {
    Seq::new(32, |i: int| hidden_bits(pixels[(i, 0)], 1) == 1)
}

/// The length that the header records, first pixel most significant.
pub open spec fn header_value(pixels: Map<(int, int), Seq<u8>>) -> nat {
    bits_value(header_bits(pixels))
}

/// The bit of `size` that the header pixel in column `column` holds: the
/// most significant in the first column.
pub open spec fn header_bit(size: nat, column: int) -> nat {
    if crate::bits::bit_of(size, (31 - column) as nat) {
        1
    } else {
        0
    }
}

/// The pixels after `length` bits `bits` were hidden in the pixel at `place`.
pub open spec fn with_hidden(
    pixels: Map<(int, int), Seq<u8>>,
    place: (int, int),
    bits: nat,
    length: nat,
) -> Map<(int, int), Seq<u8>> {
    pixels.insert(place, hidden_in(pixels[place], bits, length))
}

/// The pixels after the header pixels before column `count` got, each in its
/// lowest bit, their bit of `size`.
pub open spec fn with_header(
    pixels: Map<(int, int), Seq<u8>>,
    size: nat,
    count: nat,
) -> Map<(int, int), Seq<u8>>
    decreases count,
{
    if count == 0 {
        pixels
    } else {
        with_hidden(
            with_header(pixels, size, (count - 1) as nat),
            (count - 1, 0int),
            header_bit(size, count - 1),
            1,
        )
    }
}

/// Writing the header changes the header pixels before column `count`, each
/// in its lowest bit, and nothing else.
pub proof fn lemma_with_header(pixels: Map<(int, int), Seq<u8>>, size: nat, count: nat)
    requires
        count <= 32,
    ensures
        forall|place: (int, int)|
            !(in_header(place) && place.0 < count) ==> #[trigger] with_header(
                pixels,
                size,
                count,
            )[place] == pixels[place],
        forall|column: int|
            0 <= column < count ==> #[trigger] with_header(pixels, size, count)[(column, 0int)]
                == hidden_in(pixels[(column, 0int)], header_bit(size, column), 1),
    decreases count,
{
    if count > 0 {
        lemma_with_header(pixels, size, (count - 1) as nat);
        let before = with_header(pixels, size, (count - 1) as nat);
        let after = with_header(pixels, size, count);
        assert forall|place: (int, int)| !(in_header(place) && place.0 < count) implies after[place]
            == pixels[place] by {
            assert(place != (count - 1, 0int));
            assert(after[place] == before[place]);
        }
        assert forall|column: int| 0 <= column < count implies after[(column, 0int)] == hidden_in(
            pixels[(column, 0int)],
            header_bit(size, column),
            1,
        ) by {
            if column < count - 1 {
                assert((column, 0int) != (count - 1, 0int));
                assert(after[(column, 0int)] == before[(column, 0int)]);
            } else {
                assert(before[(column, 0int)] == pixels[(column, 0int)]);
            }
        }
    }
}

/// Three colour bytes in which bits were hidden spell what was put together,
/// and give the hidden bits back.
pub proof fn lemma_hidden_in(samples: Seq<u8>, bits: nat, length: nat)
    requires
        length <= 24,
        bits < pow2(length),
    ensures
        u24_of(hidden_in(samples, bits, length)) == (u24_of(samples) / pow2(length)) * pow2(
            length,
        ) + bits,
        hidden_bits(hidden_in(samples, bits, length), length) == bits,
        u24_of(hidden_in(samples, bits, length)) / pow2(length) == u24_of(samples) / pow2(
            length,
        ),
        hidden_in(samples, bits, length).skip(3) == samples.skip(3),
{
    let value = u24_of(samples);
    let high = value / pow2(length);
    let scale = pow2(length);
    let joined = high * scale + bits;
    lemma_pow2_pos(length);
    assert(pow2(24) == 0x100_0000) by {
        lemma2_to64();
    }
    assert(value < 0x100_0000);
    assert(joined < 0x100_0000) by {
        vstd::arithmetic::div_mod::lemma_fundamental_div_mod(value as int, scale as int);
        vstd::arithmetic::mul::lemma_mul_is_commutative(high as int, scale as int);
        // high * scale <= value, and value - value % scale + scale <= 2^24
        let rest = (24 - length) as nat;
        vstd::arithmetic::power2::lemma_pow2_adds(rest, length);
        if high >= pow2(rest) {
            assert(high * scale >= pow2(rest) * scale) by (nonlinear_arith)
                requires
                    high >= pow2(rest),
                    scale > 0,
            ;
        }
        assert((high + 1) * scale <= pow2(rest) * scale) by (nonlinear_arith)
            requires
                high + 1 <= pow2(rest),
                scale > 0,
        ;
        assert((high + 1) * scale == high * scale + scale) by (nonlinear_arith);
    }
    crate::bytetools::lemma_u24_round_trip(joined);
    let seen = hidden_in(samples, bits, length);
    let colours = be_bytes(joined, 3);
    assert(seen[0] == colours[0] && seen[1] == colours[1] && seen[2] == colours[2]);
    assert(u24_of(seen) == u24_of(colours));
    vstd::arithmetic::mul::lemma_mul_is_commutative(high as int, scale as int);
    vstd::arithmetic::div_mod::lemma_fundamental_div_mod_converse(
        joined as int,
        scale as int,
        high as int,
        bits as int,
    );
    assert(seen.skip(3) =~= samples.skip(3));
}

/// A container image: the host image with the geometry of its pixels, and, once
/// extraction was set up, the state of the extraction.
pub struct ContainerImage<'a> {
    image: DynamicImage,
    width: u32,
    height: u32,
    reading_state: Option<ReadingState>,
    file_pathname: &'a str,
}

/// Whether the name of a file has a supported extension.
pub open spec fn name_supported(name: Seq<char>) -> bool {
    last_dot(name) >= 0 && is_supported_extension(extension_of(name))
}

/// Why an image under a name is refused as a host, if it is.
pub open spec fn host_refusal(name: Seq<char>, image: DynamicImage) -> Option<SteganerError> {
    if !name_supported(name) {
        Some(SteganerError::UnsupportedFormat)
    } else if image_channels(image) != 3 && image_channels(image) != 4 {
        Some(SteganerError::UnsupportedFormat)
    } else if image_width(image) < 32 || image_height(image) < 1 {
        Some(SteganerError::CapacityExceeded)
    } else if image_width(image) * image_height(image) > u32::MAX {
        Some(SteganerError::UnsupportedFormat)
    } else {
        None
    }
}

impl<'a> ContainerImage<'a> {
    /// The bytes of every pixel, by column and row.
    pub closed spec fn pixels(&self) -> Map<(int, int), Seq<u8>> {
        image_samples(self.image)
    }

    /// Number of pixels in a row.
    pub closed spec fn width(&self) -> nat {
        self.width as nat
    }

    /// Number of rows.
    pub closed spec fn height(&self) -> nat {
        self.height as nat
    }

    /// The state of the extraction, once it was set up.
    pub closed spec fn state(&self) -> Option<ReadingState> {
        self.reading_state
    }

    /// The host image.
    pub closed spec fn host(&self) -> DynamicImage {
        self.image
    }

    /// The name of the file of the host image.
    pub closed spec fn pathname(&self) -> Seq<char> {
        self.file_pathname@
    }

    /// Number of pixels behind the header.
    pub open spec fn usable(&self) -> int {
        usable_pixels(self.width(), self.height())
    }

    /// The geometry is that of the host image, which has room for the header
    /// and pixels of three or four bytes; the state of an extraction fits the
    /// image.
    pub closed spec fn wf(&self) -> bool {
        &&& self.width == image_width(self.image)
        &&& self.height == image_height(self.image)
        &&& 32 <= self.width
        &&& 1 <= self.height
        &&& self.width * self.height <= u32::MAX
        &&& (image_channels(self.image) == 3 || image_channels(self.image) == 4)
        &&& self.reading_state matches Some(state) ==> {
            &&& fits(state.hidden_file_size as nat, self.usable())
            &&& state.chunk_size == density(state.hidden_file_size as nat, self.usable())
        }
    }

    /// What `wf` says of the geometry and of the state of an extraction.
    pub proof fn lemma_wf(&self)
        requires
            self.wf(),
        ensures
            32 <= self.width(),
            1 <= self.height(),
            self.width() * self.height() <= u32::MAX,
            self.usable() >= 0,
            self.state() matches Some(state) ==> {
                &&& fits(state.hidden_file_size as nat, self.usable())
                &&& state.chunk_size == density(state.hidden_file_size as nat, self.usable())
            },
    {
        assert(self.width() * self.height() >= 32) by (nonlinear_arith)
            requires
                self.width() >= 32,
                self.height() >= 1,
        ;
    }

    /// Wraps the image read from the file `file_pathname` as a host. The name
    /// must have a supported extension, and the image pixels of 8-bit RGB or
    /// RGBA, at least 32 of them in a row, and no more than 32 bits can count.
    #[must_use]
    pub fn new(file_pathname: &'a str, image: DynamicImage) -> (container: Result<
        Self,
        SteganerError,
    >)
        ensures
            match container {
                Ok(container) => {
                    &&& host_refusal(file_pathname@, image) is None
                    &&& container.wf()
                    &&& container.host() == image
                    &&& container.pixels() == image_samples(image)
                    &&& container.width() == image_width(image)
                    &&& container.height() == image_height(image)
                    &&& container.state() is None
                    &&& container.pathname() == file_pathname@
                },
                Err(error) => host_refusal(file_pathname@, image) == Some(error),
            },
    {
        match supported_image(file_pathname) {
            Ok(true) => {},
            _ => {
                return Err(SteganerError::UnsupportedFormat);
            },
        }
        if !has_rgba8(&image) && !has_rgb8(&image) {
            return Err(SteganerError::UnsupportedFormat);
        }
        let (width, height): (u32, u32) = image_dimensions(&image);
        if width < HEADER_PIXEL_LENGTH as u32 || height < 1 {
            return Err(SteganerError::CapacityExceeded);
        }
        assert(width * height <= 0xffff_ffff * 0xffff_ffff) by (nonlinear_arith)
            requires
                width <= 0xffff_ffff,
                height <= 0xffff_ffff,
        ;
        if width as u64 * height as u64 > u32::MAX as u64 {
            return Err(SteganerError::UnsupportedFormat);
        }
        Ok(ContainerImage { image, width, height, reading_state: None, file_pathname })
    }

    /// The host image, to look at.
    pub fn image(&self) -> (image: &DynamicImage)
        ensures
            *image == self.host(),
            image_samples(*image) == self.pixels(),
    {
        &self.image
    }

    /// Gives the host image back, with what was hidden in it.
    pub fn into_image(self) -> (image: DynamicImage)
        ensures
            image == self.host(),
            image_samples(image) == self.pixels(),
    {
        self.image
    }

    /// The name of the file of the host image.
    pub fn file_pathname(&self) -> (name: &'a str)
        ensures
            name@ == self.pathname(),
    {
        self.file_pathname
    }

    /// The state of the extraction, once it was set up.
    pub fn reading_state(&self) -> (state: Option<ReadingState>)
        ensures
            state == self.state(),
    {
        self.reading_state
    }

    /// Number of bits to hide in each pixel so that `total_data_size` bytes
    /// fit in the pixels behind the header; an error if they do not fit at 24
    /// bits a pixel.
    pub fn get_chunk_size(&self, total_data_size: u32) -> (chunk_size: Result<u8, SteganerError>)
        requires
            self.wf(),
        ensures
            match chunk_size {
                Ok(chunk_size) => {
                    &&& fits(total_data_size as nat, self.usable())
                    &&& chunk_size == density(total_data_size as nat, self.usable())
                    &&& chunk_size <= 24
                },
                Err(error) => {
                    &&& !fits(total_data_size as nat, self.usable())
                    &&& error == SteganerError::CapacityExceeded
                },
            },
    {
        proof {
            self.lemma_wf();
            assert(self.height * self.width == self.width * self.height) by (nonlinear_arith);
        }
        let usable_pixels_amount: u64 = (self.height as u64 * self.width as u64)
            - HEADER_PIXEL_LENGTH as u64;
        let total_data_size_in_bits: u64 = total_data_size as u64 * 8;
        assert(usable_pixels_amount == self.usable()) by (nonlinear_arith)
            requires
                usable_pixels_amount == self.height * self.width - 32,
                self.usable() == self.width * self.height - 32,
        ;
        if total_data_size_in_bits > usable_pixels_amount * 24 {
            Err(SteganerError::CapacityExceeded)
        } else if usable_pixels_amount == 0 {
            Ok(0)
        } else {
            let bits_per_pixel: u64 = (total_data_size_in_bits + usable_pixels_amount - 1)
                / usable_pixels_amount;
            proof {
                let usable = usable_pixels_amount as int;
                let padded = (total_data_size_in_bits + usable_pixels_amount - 1) as int;
                vstd::arithmetic::div_mod::lemma_fundamental_div_mod(padded, usable);
                vstd::arithmetic::div_mod::lemma_mod_bound(padded, usable);
                if padded / usable > 24 {
                    assert(usable * (padded / usable) >= usable * 25) by (nonlinear_arith)
                        requires
                            padded / usable >= 25,
                            usable > 0,
                    ;
                }
            }
            Ok(bits_per_pixel as u8)
        }
    }

    /// Column and row of the pixel that holds the chunk of ordinal `position`.
    pub fn get_coordinates(&self, position: u32) -> (place: Position)
        requires
            self.wf(),
        ensures
            (place.x as int, place.y as int) == coordinates(self.width(), position as nat),
            place.x < self.width(),
            32 + position < self.width() * self.height() ==> place.y < self.height(),
    {
        proof {
            self.lemma_wf();
        }
        let offset_position: u64 = HEADER_PIXEL_LENGTH as u64 + position as u64;
        let x: u64 = offset_position % self.width as u64;
        let y: u64 = offset_position / self.width as u64;
        proof {
            let width = self.width as int;
            let offset = offset_position as int;
            vstd::arithmetic::div_mod::lemma_fundamental_div_mod(offset, width);
            vstd::arithmetic::div_mod::lemma_mod_bound(offset, width);
            vstd::arithmetic::div_mod::lemma_div_is_ordered_by_denominator(offset, 32, width);
            assert(offset / 32 <= 0x800_0000);
            if offset < width * self.height && y >= self.height {
                assert(width * (offset / width) >= width * self.height) by (nonlinear_arith)
                    requires
                        offset / width >= self.height,
                        width > 0,
                ;
            }
        }
        Position { x: x as u32, y: y as u32 }
    }

    /// The colours of a pixel after `bits_length` bits `bits` were hidden in
    /// them.
    pub fn overwrite_pixel(rgb: &[u8; 3], bits: u32, bits_length: u8) -> (modified: [u8; 3])
        requires
            bits_length <= 24,
            bits < pow2(bits_length as nat),
        ensures
            modified@ == hidden_in(rgb@, bits as nat, bits_length as nat),
    {
        let original_pixel_value: u32 = bytes_to_u24(rgb);
        let clearing_mask: u32 = mask::<u32>(bits_length, true);
        proof {
            let scale = pow2(bits_length as nat);
            crate::bytetools::lemma_and_inverted_mask(original_pixel_value, bits_length as nat);
            crate::bytetools::lemma_pow2_ordered(bits_length as nat, 24);
            assert(pow2(24) == 0x100_0000) by {
                lemma2_to64();
            }
            lemma_pow2_pos(bits_length as nat);
            vstd::arithmetic::div_mod::lemma_fundamental_div_mod(
                original_pixel_value as int,
                scale as int,
            );
            vstd::arithmetic::mul::lemma_mul_is_commutative(
                (original_pixel_value as nat / scale) as int,
                scale as int,
            );
            assert(rgb@.skip(3) =~= Seq::<u8>::empty());
        }
        let modified_pixel_value: u32 = (original_pixel_value & clearing_mask) + bits;
        let modified_pixel_bytes: [u8; 3] = u24_to_bytes(modified_pixel_value);
        assert(modified_pixel_bytes@ =~= hidden_in(rgb@, bits as nat, bits_length as nat));
        modified_pixel_bytes
    }

    /// The `bits_length` bits hidden in the colours of a pixel.
    pub fn extract_hidden_data(pixel: &[u8; 3], bits_length: u8) -> (recovered_bits: u32)
        requires
            bits_length <= 24,
        ensures
            recovered_bits == hidden_bits(pixel@, bits_length as nat),
            recovered_bits < pow2(bits_length as nat),
    {
        let pixel_value: u32 = bytes_to_u24(pixel);
        let low_mask: u32 = mask::<u32>(bits_length, false);
        proof {
            crate::bytetools::lemma_and_low_mask(pixel_value, bits_length as nat);
            lemma_pow2_pos(bits_length as nat);
            vstd::arithmetic::div_mod::lemma_mod_bound(
                pixel_value as int,
                pow2(bits_length as nat) as int,
            );
        }
        let recovered_bits: u32 = pixel_value & low_mask;
        recovered_bits
    }

    /// Hides `bits_length` bits `bits` in the pixel in column `x` of row `y`:
    /// they replace the low bits of its colours. An alpha byte stays as it is.
    pub fn encode_bits(&mut self, bits: u32, bits_length: u8, x: u32, y: u32)
        requires
            old(self).wf(),
            x < old(self).width(),
            y < old(self).height(),
            bits_length <= 24,
            bits < pow2(bits_length as nat),
        ensures
            final(self).wf(),
            final(self).width() == old(self).width(),
            final(self).height() == old(self).height(),
            final(self).state() == old(self).state(),
            final(self).pathname() == old(self).pathname(),
            final(self).pixels() == with_hidden(
                old(self).pixels(),
                (x as int, y as int),
                bits as nat,
                bits_length as nat,
            ),
    {
        if has_rgba8(&self.image) {
            let pixel: [u8; 4] = rgba8_pixel(&self.image, x, y);
            let colours: [u8; 3] = [pixel[0], pixel[1], pixel[2]];
            let modified_pixel_bytes: [u8; 3] = Self::overwrite_pixel(&colours, bits, bits_length);
            let modified_pixel: [u8; 4] = [
                modified_pixel_bytes[0],
                modified_pixel_bytes[1],
                modified_pixel_bytes[2],
                pixel[3],
            ];
            proof {
                assert(u24_of(colours@) == u24_of(pixel@));
                assert(modified_pixel@ =~= hidden_in(pixel@, bits as nat, bits_length as nat));
            }
            put_rgba8_pixel(&mut self.image, x, y, modified_pixel);
        } else {
            let pixel: [u8; 3] = rgb8_pixel(&self.image, x, y);
            let modified_pixel_bytes: [u8; 3] = Self::overwrite_pixel(&pixel, bits, bits_length);
            put_rgb8_pixel(&mut self.image, x, y, modified_pixel_bytes);
        }
    }

    /// The `bits_length` bits hidden in the pixel in column `x` of row `y`.
    pub fn decode_bits(&self, x: u32, y: u32, bits_length: u8) -> (recovered_bits: u32)
        requires
            self.wf(),
            x < self.width(),
            y < self.height(),
            bits_length <= 24,
        ensures
            recovered_bits == hidden_bits(
                self.pixels()[(x as int, y as int)],
                bits_length as nat,
            ),
            recovered_bits < pow2(bits_length as nat),
    {
        if has_rgba8(&self.image) {
            let pixel: [u8; 4] = rgba8_pixel(&self.image, x, y);
            let colours: [u8; 3] = [pixel[0], pixel[1], pixel[2]];
            assert(u24_of(colours@) == u24_of(pixel@));
            Self::extract_hidden_data(&colours, bits_length)
        } else {
            let pixel: [u8; 3] = rgb8_pixel(&self.image, x, y);
            Self::extract_hidden_data(&[pixel[0], pixel[1], pixel[2]], bits_length)
        }
    }

    /// Records `total_data_size` in the header: pixel after pixel of the first
    /// 32 of the first row gets one bit of it, most significant first, in its
    /// lowest bit.
    pub fn encode_header(&mut self, total_data_size: u32)
        requires
            old(self).wf(),
        ensures
            final(self).wf(),
            final(self).width() == old(self).width(),
            final(self).height() == old(self).height(),
            final(self).state() == old(self).state(),
            final(self).pathname() == old(self).pathname(),
            final(self).pixels() == with_header(old(self).pixels(), total_data_size as nat, 32),
    {
        let bits_per_pixel: u8 = SIZE_LENGTH / HEADER_PIXEL_LENGTH;
        let ghost before = self.pixels();
        let mut i: u8 = 0;
        proof {
            self.lemma_wf();
            
        }
        while i < HEADER_PIXEL_LENGTH
            invariant
                i <= HEADER_PIXEL_LENGTH,
                bits_per_pixel == 1,
                self.wf(),
                32 <= self.width(),
                1 <= self.height(),
                self.width() == old(self).width(),
                self.height() == old(self).height(),
                self.state() == old(self).state(),
                self.pathname() == old(self).pathname(),
                self.pixels() == with_header(before, total_data_size as nat, i as nat),
            decreases HEADER_PIXEL_LENGTH - i,
        {
            let bits_normalized: u32 = get_bits::<u32>(
                total_data_size,
                bits_per_pixel * i,
                bits_per_pixel,
            );
            proof {
                assert(pow2(1) == 2) by {
                    lemma2_to64();
                }
                assert(bits_normalized == header_bit(total_data_size as nat, i as int));
            }
            self.encode_bits(bits_normalized, bits_per_pixel, i as u32, 0);
            i = i + 1;
        }
    }

    /// Reads the length that the header records.
    pub fn decode_header(&self) -> (size: u32)
        requires
            self.wf(),
        ensures
            size == header_value(self.pixels()),
    {
        let mut size: u32 = 0u32;
        let bits_per_pixel: u8 = SIZE_LENGTH / HEADER_PIXEL_LENGTH;
        let ghost bits = header_bits(self.pixels());
        let mut i: u8 = 0;
        proof {
            self.lemma_wf();
            assert(bits.take(0) =~= Seq::<bool>::empty());
            assert(0 * pow2(32) == 0) by (nonlinear_arith);
        }
        while i < HEADER_PIXEL_LENGTH
            invariant
                i <= HEADER_PIXEL_LENGTH,
                bits_per_pixel == 1,
                self.wf(),
                32 <= self.width(),
                1 <= self.height(),
                bits == header_bits(self.pixels()),
                size == bits_value(bits.take(i as int)) * pow2((32 - i) as nat),
            decreases HEADER_PIXEL_LENGTH - i,
        {
            let partial_bits: u32 = self.decode_bits(i as u32, 0, bits_per_pixel);
            let left_shift: u8 = (SIZE_LENGTH - 1) - (i * bits_per_pixel);
            proof {
                let front = bits.take(i as int);
                let longer = bits.take(i + 1);
                let scale = pow2(left_shift as nat);
                assert(longer.drop_last() =~= front);
                assert(longer.last() == (partial_bits == 1));
                assert(pow2(1) == 2 && pow2(32) == 0x1_0000_0000) by {
                    lemma2_to64();
                }
                crate::bits::lemma_bits_value_bound(longer);
                vstd::arithmetic::power2::lemma_pow2_unfold((32 - i) as nat);
                vstd::arithmetic::power2::lemma_pow2_adds((i + 1) as nat, left_shift as nat);
                lemma_pow2_pos(left_shift as nat);
                assert(bits_value(longer) * scale == bits_value(front) * pow2((32 - i) as nat)
                    + partial_bits * scale) by (nonlinear_arith)
                    requires
                        bits_value(longer) == 2 * bits_value(front) + partial_bits,
                        pow2((32 - i) as nat) == 2 * scale,
                ;
                assert(bits_value(longer) * scale < pow2((i + 1) as nat) * scale)
                    by (nonlinear_arith)
                    requires
                        bits_value(longer) < pow2((i + 1) as nat),
                        scale > 0,
                ;
                assert(partial_bits * scale <= bits_value(longer) * scale);
                vstd::bits::lemma_u32_shl_is_mul(partial_bits, left_shift as u32);
            }
            size = size + (partial_bits << left_shift);
            i = i + 1;
        }
        proof {
            assert(bits.take(32) =~= bits);
            assert(pow2(0) == 1) by {
                lemma2_to64();
            }
            assert(size == bits_value(bits)) by (nonlinear_arith)
                requires
                    size == bits_value(bits) * pow2(0),
                    pow2(0) == 1,
            ;
        }
        size
    }

    /// Hides a chunk in the pixel that its ordinal gives.
    pub fn hide_data(&mut self, chunk: &Chunk)
        requires
            old(self).wf(),
            chunk.wf(),
            chunk.length <= 24,
            32 + chunk.order < old(self).width() * old(self).height(),
        ensures
            final(self).wf(),
            final(self).width() == old(self).width(),
            final(self).height() == old(self).height(),
            final(self).state() == old(self).state(),
            final(self).pathname() == old(self).pathname(),
            final(self).pixels() == with_hidden(
                old(self).pixels(),
                coordinates(old(self).width(), chunk.order as nat),
                chunk.data as nat,
                chunk.length as nat,
            ),
    {
        let Position { x, y } = self.get_coordinates(chunk.order);
        self.encode_bits(chunk.data, chunk.length, x, y);
    }

    /// Prepares the image to host a file of `total_data_size` bytes: the size
    /// is recorded in the header, and the number of bits to hide in each pixel
    /// is returned. A file that does not fit is refused, and the image is left
    /// as it was.
    pub fn setup_hiding(&mut self, total_data_size: u32) -> (chunk_size: Result<
        u8,
        SteganerError,
    >)
        requires
            old(self).wf(),
        ensures
            final(self).wf(),
            final(self).width() == old(self).width(),
            final(self).height() == old(self).height(),
            final(self).state() == old(self).state(),
            final(self).pathname() == old(self).pathname(),
            match chunk_size {
                Ok(chunk_size) => {
                    &&& fits(total_data_size as nat, old(self).usable())
                    &&& chunk_size == density(total_data_size as nat, old(self).usable())
                    &&& chunk_size <= 24
                    &&& final(self).pixels() == with_header(
                        old(self).pixels(),
                        total_data_size as nat,
                        32,
                    )
                },
                Err(error) => {
                    &&& !fits(total_data_size as nat, old(self).usable())
                    &&& error == SteganerError::CapacityExceeded
                    &&& final(self).pixels() == old(self).pixels()
                },
            },
    {
        match self.get_chunk_size(total_data_size) {
            Ok(chunk_size) => {
                self.encode_header(total_data_size);
                Ok(chunk_size)
            },
            Err(error) => Err(error),
        }
    }

    /// Prepares the extraction of the file hidden in the image: the size is
    /// read from the header, and the number of bits hidden in each pixel
    /// follows from it. A header whose size cannot fit in the image is
    /// refused.
    pub fn setup_hidden_data_extraction(&mut self) -> (outcome: Result<(), SteganerError>)
        requires
            old(self).wf(),
        ensures
            final(self).wf(),
            final(self).width() == old(self).width(),
            final(self).height() == old(self).height(),
            final(self).pathname() == old(self).pathname(),
            final(self).pixels() == old(self).pixels(),
            match outcome {
                Ok(_) => {
                    &&& fits(header_value(old(self).pixels()), old(self).usable())
                    &&& final(self).state() matches Some(state)
                    &&& state.hidden_file_size == header_value(old(self).pixels())
                    &&& state.chunk_size == density(
                        header_value(old(self).pixels()),
                        old(self).usable(),
                    )
                    &&& state.reading_position == 0
                },
                Err(error) => {
                    &&& !fits(header_value(old(self).pixels()), old(self).usable())
                    &&& error == SteganerError::CapacityExceeded
                    &&& final(self).state() == old(self).state()
                },
            },
    {
        let hidden_file_size: u32 = self.decode_header();
        match self.get_chunk_size(hidden_file_size) {
            Ok(chunk_size) => {
                let reading_state = ReadingState::new(hidden_file_size, chunk_size, 0);
                self.reading_state = Some(reading_state);
                Ok(())
            },
            Err(error) => Err(error),
        }
    }

    /// Returns the next chunk of the hidden file, read from the pixel that its
    /// ordinal gives, or `None` once as many bits were read as the file has.
    /// The extraction must have been set up.
    pub fn next(&mut self) -> (chunk: Option<Chunk>)
        requires
            old(self).wf(),
            old(self).state() is Some,
        ensures
            final(self).wf(),
            final(self).width() == old(self).width(),
            final(self).height() == old(self).height(),
            final(self).pathname() == old(self).pathname(),
            final(self).pixels() == old(self).pixels(),
            ({
                let state = old(self).state()->Some_0;
                if state.reading_position * state.chunk_size < state.hidden_file_size * 8 {
                    &&& chunk matches Some(chunk)
                    &&& chunk.data == hidden_bits(
                        old(self).pixels()[coordinates(
                            old(self).width(),
                            state.reading_position as nat,
                        )],
                        state.chunk_size as nat,
                    )
                    &&& chunk.length == state.chunk_size
                    &&& chunk.order == state.reading_position
                    &&& chunk.wf()
                    &&& chunk.length <= 24
                    &&& state.reading_position < old(self).usable()
                    &&& final(self).state() matches Some(next)
                    &&& next.hidden_file_size == state.hidden_file_size
                    &&& next.chunk_size == state.chunk_size
                    &&& next.reading_position == state.reading_position + 1
                } else {
                    &&& chunk is None
                    &&& final(self).state() == old(self).state()
                }
            }),
    {
        let state: ReadingState = match self.reading_state {
            Some(state) => state,
            None => {
                return None;
            },
        };
        proof {
            self.lemma_wf();
            assert(state.reading_position * state.chunk_size <= 0xffff_ffff * 0xff)
                by (nonlinear_arith)
                requires
                    state.reading_position <= 0xffff_ffff,
                    state.chunk_size <= 0xff,
            ;
        }
        let bit_position: u64 = state.reading_position as u64 * state.chunk_size as u64;
        if bit_position < state.hidden_file_size as u64 * 8 {
            proof {
                lemma_density(state.hidden_file_size as nat, self.usable());
                let usable = self.usable();
                let size = state.chunk_size as int;
                let position = state.reading_position as int;
                if position >= usable {
                    assert(position * size >= usable * size) by (nonlinear_arith)
                        requires
                            position >= usable,
                            size >= 0,
                    ;
                }
            }
            let reading_coordinates: Position = self.get_coordinates(state.reading_position);
            let extracted_bits: u32 = self.decode_bits(
                reading_coordinates.x,
                reading_coordinates.y,
                state.chunk_size,
            );
            let returned_chunk = Chunk::new(
                extracted_bits,
                state.chunk_size,
                state.reading_position,
            );
            let next_reading_position: u32 = state.reading_position + 1;
            let new_state = ReadingState::new(
                state.hidden_file_size,
                state.chunk_size,
                next_reading_position,
            );
            self.reading_state = Some(new_state);
            Some(returned_chunk)
        } else {
            None
        }
    }
}

/// What rounding up gives: the pixels, at the density of a payload, hold at
/// least its bits; a payload that fits takes at most 24 bits a pixel; one
/// that fills the pixels at 24 bits each takes 24.
pub proof fn lemma_density(total: nat, usable: int)
    ensures
        usable > 0 ==> usable * density(total, usable) >= 8 * total,
        fits(total, usable) ==> density(total, usable) <= 24,
        fits(total, usable) && usable <= 0 ==> total == 0,
        usable > 0 && 8 * total == usable * 24 ==> density(total, usable) == 24,
        usable > 0 && total > 0 ==> density(total, usable) >= 1,
{
    if usable > 0 {
        let padded = 8 * total + usable - 1;
        let quotient = padded / usable;
        vstd::arithmetic::div_mod::lemma_fundamental_div_mod(padded, usable);
        vstd::arithmetic::div_mod::lemma_mod_bound(padded, usable);
        if fits(total, usable) && quotient >= 25 {
            assert(usable * quotient >= usable * 25) by (nonlinear_arith)
                requires
                    quotient >= 25,
                    usable > 0,
            ;
        }
        if 8 * total == usable * 24 && quotient <= 23 {
            assert(usable * quotient <= usable * 23) by (nonlinear_arith)
                requires
                    quotient <= 23,
                    usable > 0,
            ;
        }
        if total > 0 && quotient <= 0 {
            assert(usable * quotient <= 0) by (nonlinear_arith)
                requires
                    quotient <= 0,
                    usable > 0,
            ;
        }
    }
}

/// Capacity boundary: a payload of exactly 24 bits for every pixel behind
/// the header fits and takes 24 bits a pixel; one byte more does not fit.
pub proof fn lemma_capacity_boundary(total: nat, usable: int)
    requires
        usable > 0,
        8 * total == usable * 24,
    ensures
        fits(total, usable),
        density(total, usable) == 24,
        !fits(total + 1, usable),
{
    lemma_density(total, usable);
}

/// Header round trip: the length read from a header is the length that was
/// written to it.
pub proof fn lemma_header_round_trip(pixels: Map<(int, int), Seq<u8>>, size: nat)
    requires
        size <= u32::MAX,
    ensures
        header_value(with_header(pixels, size, 32)) == size,
        header_bits(with_header(pixels, size, 32)) == value_bits(size, 32),
{
    let written = with_header(pixels, size, 32);
    let bits = header_bits(written);
    let wanted = value_bits(size, 32);
    lemma_with_header(pixels, size, 32);
    assert(pow2(1) == 2 && pow2(32) == 0x1_0000_0000) by {
        lemma2_to64();
    }
    assert forall|i: int| 0 <= i < 32 implies bits[i] == wanted[i] by {
        lemma_hidden_in(pixels[(i, 0int)], header_bit(size, i), 1);
        assert(written[(i, 0int)] == hidden_in(pixels[(i, 0int)], header_bit(size, i), 1));
    }
    assert(bits =~= wanted);
    crate::bits::lemma_bits_value_of_value_bits(size, 32);
    vstd::arithmetic::div_mod::lemma_small_mod(size, 0x1_0000_0000);
}

/// Coordinate mapping: in an image at least 32 pixels wide, the pixels of the
/// chunks are the pixels behind the header, row by row. Every chunk whose
/// ordinal is below the number of those pixels has its pixel inside the image
/// and outside the header; chunks of different ordinals have different
/// pixels, the later chunk the later pixel; and every pixel inside the image
/// and outside the header is that of one such chunk.
pub proof fn lemma_coordinates(width: nat, height: nat, first: nat, second: nat)
    requires
        32 <= width,
        1 <= height,
    ensures
        !in_header(coordinates(width, first)),
        0 <= coordinates(width, first).0 < width,
        0 <= coordinates(width, first).1,
        first < usable_pixels(width, height) <==> coordinates(width, first).1 < height,
        first < second ==> coordinates(width, first).1 < coordinates(width, second).1 || (
        coordinates(width, first).1 == coordinates(width, second).1 && coordinates(
            width,
            first,
        ).0 < coordinates(width, second).0),
        first != second ==> coordinates(width, first) != coordinates(width, second),
{
    let w = width as int;
    let a = (32 + first) as int;
    let b = (32 + second) as int;
    vstd::arithmetic::div_mod::lemma_fundamental_div_mod(a, w);
    vstd::arithmetic::div_mod::lemma_fundamental_div_mod(b, w);
    vstd::arithmetic::div_mod::lemma_mod_bound(a, w);
    vstd::arithmetic::div_mod::lemma_mod_bound(b, w);
    vstd::arithmetic::div_mod::lemma_div_pos_is_pos(a, w);
    // outside the header
    if a / w == 0 {
        assert(w * (a / w) == 0) by (nonlinear_arith)
            requires
                a / w == 0,
        ;
    }
    // inside the image
    if a / w >= height {
        assert(w * (a / w) >= w * height) by (nonlinear_arith)
            requires
                a / w >= height,
                w > 0,
        ;
    } else {
        assert(w * (a / w) <= w * (height - 1)) by (nonlinear_arith)
            requires
                a / w <= height - 1,
                w > 0,
        ;
        assert(w * (height - 1) == w * height - w) by (nonlinear_arith);
    }
    // row by row
    if first < second {
        vstd::arithmetic::div_mod::lemma_div_is_ordered(a, b, w);
    }
    if second < first {
        vstd::arithmetic::div_mod::lemma_div_is_ordered(b, a, w);
    }
}

/// Coordinate mapping, the other way: every pixel inside the image and
/// outside the header is the pixel of a chunk, whose ordinal is the number of
/// pixels between the header and it.
pub proof fn lemma_coordinates_onto(width: nat, height: nat, column: int, row: int)
    requires
        32 <= width,
        0 <= column < width,
        0 <= row < height,
        !in_header((column, row)),
    ensures
        0 <= row * width + column - 32 < usable_pixels(width, height),
        coordinates(width, (row * width + column - 32) as nat) == (column, row),
{
    let w = width as int;
    let offset = row * w + column;
    assert(row * w >= 0) by (nonlinear_arith)
        requires
            row >= 0,
            w > 0,
    ;
    if row >= 1 {
        assert(row * w >= w) by (nonlinear_arith)
            requires
                row >= 1,
                w > 0,
        ;
    } else {
        assert(row * w == 0) by (nonlinear_arith)
            requires
                row == 0,
        ;
    }
    assert(row * w + w <= height * w) by (nonlinear_arith)
        requires
            row + 1 <= height,
            w > 0,
    ;
    assert(height * w == width * height) by (nonlinear_arith)
        requires
            w == width,
    ;
    vstd::arithmetic::div_mod::lemma_fundamental_div_mod_converse(offset, w, row, column);
}

/// Header and payload do not overlap: in an image at least 32 pixels wide,
/// hiding a chunk leaves the length that the header records as it was, and
/// writing the header leaves the pixel of every chunk as it was.
pub proof fn lemma_header_and_payload_apart(
    pixels: Map<(int, int), Seq<u8>>,
    width: nat,
    size: nat,
    order: nat,
    bits: nat,
    length: nat,
)
    requires
        32 <= width,
    ensures
        !in_header(coordinates(width, order)),
        header_value(with_hidden(pixels, coordinates(width, order), bits, length))
            == header_value(pixels),
        with_header(pixels, size, 32)[coordinates(width, order)] == pixels[coordinates(
            width,
            order,
        )],
{
    lemma_coordinates(width, 1, order, order);
    lemma_with_header(pixels, size, 32);
    let place = coordinates(width, order);
    let hidden = with_hidden(pixels, place, bits, length);
    assert forall|i: int| 0 <= i < 32 implies header_bits(hidden)[i] == header_bits(pixels)[i] by {
        assert((i, 0int) != place);
    }
    assert(header_bits(hidden) =~= header_bits(pixels));
}

} // verus!
