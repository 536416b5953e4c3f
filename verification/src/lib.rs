//! Hiding a file in the low bits of the pixels of a lossless image, and
//! getting it back.
//!
//! The file is cut into chunks of a few bits ([`fileio::ContentReader`]); each
//! chunk replaces the low bits of one pixel of the host image
//! ([`stegimage::ContainerImage`]), behind a header of 32 pixels that records
//! the length of the file. Extraction reads the header, then the chunks, and
//! packs them into bytes again ([`fileio::FileWriter`]).
use vstd::prelude::*;

pub mod bit_source;
pub mod bits;
pub mod bytetools;
pub mod configuration;
pub mod errors;
pub mod fileio;
pub mod host_image;
pub mod stegimage;

use crate::bits::{bits_value, padded, stream_bits, value_bits, whole_bytes};
use crate::configuration::Configuration;
use crate::errors::SteganerError;
use crate::fileio::{
    chunk_bits, chunk_count, lemma_chunk_count, ContentReader, FileContent, FileWriter,
};
use crate::stegimage::{
    coordinates, density, fits, header_value, hidden_bits, lemma_density, with_header,
    with_hidden, ContainerImage,
};

verus! {

/// The pixels after the first `count` chunks of `stream`, of `chunk_size` bits
/// each, were hidden in them, each chunk in the pixel that its ordinal gives.
pub open spec fn with_chunks(
    pixels: Map<(int, int), Seq<u8>>,
    width: nat,
    stream: Seq<bool>,
    chunk_size: nat,
    count: nat,
) -> Map<(int, int), Seq<u8>>
    decreases count,
{
    if count == 0 {
        pixels
    } else {
        let order = (count - 1) as nat;
        with_hidden(
            with_chunks(pixels, width, stream, chunk_size, order),
            coordinates(width, order),
            bits_value(chunk_bits(stream, chunk_size, order)),
            chunk_bits(stream, chunk_size, order).len(),
        )
    }
}

/// The pixels of an image `width` by `height` after `payload` was hidden in
/// it: the header records the length of `payload`, and the pixels behind it
/// hold its chunks, at the density that its length asks for.
pub open spec fn with_payload(
    pixels: Map<(int, int), Seq<u8>>,
    width: nat,
    height: nat,
    payload: Seq<u8>,
) -> Map<(int, int), Seq<u8>> {
    let chunk_size = density(payload.len(), stegimage::usable_pixels(width, height));
    with_chunks(
        with_header(pixels, payload.len(), 32),
        width,
        stream_bits(payload),
        chunk_size,
        chunk_count(8 * payload.len(), chunk_size),
    )
}

/// The bits that the first `count` pixels behind the header hold, `chunk_size`
/// in each.
pub open spec fn hidden_stream(
    pixels: Map<(int, int), Seq<u8>>,
    width: nat,
    chunk_size: nat,
    count: nat,
) -> Seq<bool>
    decreases count,
{
    if count == 0 {
        Seq::empty()
    } else {
        let order = (count - 1) as nat;
        hidden_stream(pixels, width, chunk_size, order) + value_bits(
            hidden_bits(pixels[coordinates(width, order)], chunk_size),
            chunk_size,
        )
    }
}

/// The bytes that extraction reads from an image `width` by `height`: the
/// header gives their number, from which the density follows; as many pixels
/// are read as hold that many bytes, and their bits are packed into bytes,
/// the last byte filled up with cleared bits.
pub open spec fn extracted(pixels: Map<(int, int), Seq<u8>>, width: nat, height: nat) -> Seq<
    u8,
> {
    let size = header_value(pixels);
    let chunk_size = density(size, stegimage::usable_pixels(width, height));
    whole_bytes(
        padded(hidden_stream(pixels, width, chunk_size, chunk_count(8 * size, chunk_size))),
    )
}

/// Builds a configuration.
pub fn _create_configuration(hidden_file: &str, host_file: &str, extract: bool) -> (configuration:
    Configuration)
    ensures
        configuration.hidden_file@ == hidden_file@,
        configuration.host_file@ == host_file@,
        configuration.extract == extract,
{
    Configuration::new(hidden_file, host_file, extract)
}

/// The length of a file to hide, as the header records it. A file longer than
/// 32 bits can count is refused.
pub fn payload_size(file_to_hide: &FileContent) -> (size: Result<u32, SteganerError>)
    ensures
        match size {
            Ok(size) => size == file_to_hide@.len(),
            Err(error) => file_to_hide@.len() > u32::MAX && error == SteganerError::SizeOverflow,
        },
{
    let file_to_hide_size: usize = file_to_hide.len();
    if file_to_hide_size > u32::MAX as usize {
        Err(SteganerError::SizeOverflow)
    } else {
        Ok(file_to_hide_size as u32)
    }
}

/// Extracts the file hidden in `host_image`. A header whose size cannot fit
/// in the image is refused. The pixels are left as they are.
pub fn extract_from_image(host_image: &mut ContainerImage) -> (hidden: Result<
    Vec<u8>,
    SteganerError,
>)
    requires
        old(host_image).wf(),
    ensures
        final(host_image).wf(),
        final(host_image).pixels() == old(host_image).pixels(),
        final(host_image).width() == old(host_image).width(),
        final(host_image).height() == old(host_image).height(),
        final(host_image).pathname() == old(host_image).pathname(),
        match hidden {
            Ok(bytes) => {
                &&& fits(header_value(old(host_image).pixels()), old(host_image).usable())
                &&& bytes@ == extracted(
                    old(host_image).pixels(),
                    old(host_image).width(),
                    old(host_image).height(),
                )
                &&& final(host_image).state() is Some
            },
            Err(error) => {
                &&& !fits(header_value(old(host_image).pixels()), old(host_image).usable())
                &&& error == SteganerError::CapacityExceeded
                &&& final(host_image).state() == old(host_image).state()
            },
        },
{
    match host_image.setup_hidden_data_extraction() {
        Ok(_) => {},
        Err(error) => {
            return Err(error);
        },
    }
    let mut extracted_file = FileWriter::new();
    let ghost pixels = host_image.pixels();
    let ghost width = host_image.width();
    let ghost size = header_value(pixels);
    let ghost chunk_size = density(size, host_image.usable());
    let ghost count = chunk_count(8 * size, chunk_size);
    proof {
        lemma_density(size, host_image.usable());
    }
    loop
        invariant
            host_image.wf(),
            host_image.pixels() == pixels,
            host_image.width() == width,
            host_image.width() == old(host_image).width(),
            host_image.height() == old(host_image).height(),
            host_image.pathname() == old(host_image).pathname(),
            host_image.state() matches Some(state) && state.hidden_file_size == size
                && state.chunk_size == chunk_size && state.reading_position <= count,
            fits(size, host_image.usable()),
            chunk_size == density(size, host_image.usable()),
            chunk_size <= 24,
            count == chunk_count(8 * size, chunk_size),
            extracted_file.wf(),
            extracted_file.written() == hidden_stream(
                pixels,
                width,
                chunk_size,
                host_image.state()->Some_0.reading_position as nat,
            ),
        ensures
            host_image.wf(),
            host_image.pixels() == pixels,
            host_image.width() == old(host_image).width(),
            host_image.height() == old(host_image).height(),
            host_image.pathname() == old(host_image).pathname(),
            host_image.state() is Some,
            extracted_file.wf(),
            extracted_file.written() == hidden_stream(pixels, width, chunk_size, count),
        decreases count - host_image.state()->Some_0.reading_position,
    {
        let ghost position = host_image.state()->Some_0.reading_position as nat;
        proof {
            if chunk_size >= 1 {
                lemma_chunk_count(8 * size, chunk_size, position);
            } else {
                lemma_density(size, host_image.usable());
                assert(position * chunk_size == 0) by (nonlinear_arith)
                    requires
                        chunk_size == 0,
                ;
            }
        }
        match host_image.next() {
            Some(chunk) => {
                proof {
                    assert(chunk.bits() == value_bits(
                        hidden_bits(pixels[coordinates(width, position)], chunk_size),
                        chunk_size,
                    ));
                }
                extracted_file.write(chunk);
            },
            None => {
                break ;
            },
        }
    }
    Ok(extracted_file.close())
}

/// Hides `file_to_hide` in `host_image`: its length goes to the header, its
/// bits to the pixels behind it. A file too long for its length to be
/// recorded, or for the image to hold it, is refused, and then the image is
/// left as it was.
pub fn hide_into_image(file_to_hide: &FileContent, host_image: &mut ContainerImage) -> (outcome:
    Result<(), SteganerError>)
    requires
        old(host_image).wf(),
    ensures
        final(host_image).wf(),
        final(host_image).width() == old(host_image).width(),
        final(host_image).height() == old(host_image).height(),
        final(host_image).state() == old(host_image).state(),
        final(host_image).pathname() == old(host_image).pathname(),
        match outcome {
            Ok(_) => {
                &&& file_to_hide@.len() <= u32::MAX
                &&& fits(file_to_hide@.len(), old(host_image).usable())
                &&& final(host_image).pixels() == with_payload(
                    old(host_image).pixels(),
                    old(host_image).width(),
                    old(host_image).height(),
                    file_to_hide@,
                )
            },
            Err(error) => {
                &&& final(host_image).pixels() == old(host_image).pixels()
                &&& error == if file_to_hide@.len() > u32::MAX {
                    SteganerError::SizeOverflow
                } else {
                    SteganerError::CapacityExceeded
                }
                &&& file_to_hide@.len() > u32::MAX || !fits(
                    file_to_hide@.len(),
                    old(host_image).usable(),
                )
            },
        },
{
    let file_to_hide_size: u32 = match payload_size(file_to_hide) {
        Ok(size) => size,
        Err(error) => {
            return Err(error);
        },
    };
    let chunk_size: u8 = match host_image.setup_hiding(file_to_hide_size) {
        Ok(chunk_size) => chunk_size,
        Err(error) => {
            return Err(error);
        },
    };
    let ghost width = host_image.width();
    let ghost usable = host_image.usable();
    let ghost stream = stream_bits(file_to_hide@);
    let ghost count = chunk_count(stream.len(), chunk_size as nat);
    let ghost headed = host_image.pixels();
    if chunk_size > 0 {
        proof {
            host_image.lemma_wf();
            lemma_density(file_to_hide@.len(), usable);
            lemma_chunk_count(stream.len(), chunk_size as nat, usable as nat);
            assert(usable * chunk_size <= 0xffff_ffff * chunk_size) by (nonlinear_arith)
                requires
                    usable <= 0xffff_ffff,
                    chunk_size >= 0,
            ;
            assert(usable as nat * chunk_size == usable * chunk_size) by (nonlinear_arith)
                requires
                    usable >= 0,
            ;
            assert(chunk_size * 0xffff_ffff == 0xffff_ffff * chunk_size) by (nonlinear_arith);
        }
        let mut file_to_hide_reader = match ContentReader::new(file_to_hide, chunk_size) {
            Ok(reader) => reader,
            Err(error) => {
                return Err(error);
            },
        };
        loop
            invariant
                host_image.wf(),
                host_image.width() == width,
                host_image.usable() == usable,
                host_image.width() == old(host_image).width(),
                host_image.height() == old(host_image).height(),
                host_image.state() == old(host_image).state(),
                host_image.pathname() == old(host_image).pathname(),
                file_to_hide_reader.wf(),
                file_to_hide_reader.stream() == stream,
                file_to_hide_reader.chunk_size() == chunk_size,
                file_to_hide_reader.position() <= count,
                1 <= chunk_size <= 24,
                count == chunk_count(stream.len(), chunk_size as nat),
                count <= usable,
                host_image.pixels() == with_chunks(
                    headed,
                    width,
                    stream,
                    chunk_size as nat,
                    file_to_hide_reader.position(),
                ),
            ensures
                host_image.wf(),
                host_image.width() == old(host_image).width(),
                host_image.height() == old(host_image).height(),
                host_image.state() == old(host_image).state(),
                host_image.pathname() == old(host_image).pathname(),
                host_image.pixels() == with_chunks(headed, width, stream, chunk_size as nat, count),
            decreases count - file_to_hide_reader.position(),
        {
            match file_to_hide_reader.next() {
                Some(chunk) => {
                    proof {
                        host_image.lemma_wf();
                        crate::bits::lemma_bits_value_of_value_bits(
                            chunk.data as nat,
                            chunk.length as nat,
                        );
                        vstd::arithmetic::div_mod::lemma_small_mod(
                            chunk.data as nat,
                            vstd::arithmetic::power2::pow2(chunk.length as nat),
                        );
                        lemma_chunk_count(stream.len(), chunk_size as nat, chunk.order as nat);
                    }
                    host_image.hide_data(&chunk);
                },
                None => {
                    break ;
                },
            }
        }
    }
    Ok(())
}

/// What hiding chunks changes: the pixel of each chunk hidden holds the
/// chunk in its low bits; the header and the pixels of later chunks are as
/// they were.
pub proof fn lemma_with_chunks(
    pixels: Map<(int, int), Seq<u8>>,
    width: nat,
    stream: Seq<bool>,
    chunk_size: nat,
    count: nat,
)
    requires
        32 <= width,
    ensures
        forall|place: (int, int)|
            stegimage::in_header(place) ==> #[trigger] with_chunks(
                pixels,
                width,
                stream,
                chunk_size,
                count,
            )[place] == pixels[place],
        forall|order: nat|
            order >= count ==> with_chunks(pixels, width, stream, chunk_size, count)[#[trigger] coordinates(
                width,
                order,
            )] == pixels[coordinates(width, order)],
        forall|order: nat|
            order < count ==> with_chunks(pixels, width, stream, chunk_size, count)[#[trigger] coordinates(
                width,
                order,
            )] == stegimage::hidden_in(
                pixels[coordinates(width, order)],
                bits_value(chunk_bits(stream, chunk_size, order)),
                chunk_bits(stream, chunk_size, order).len(),
            ),
    decreases count,
{
    if count > 0 {
        let last = (count - 1) as nat;
        let before = with_chunks(pixels, width, stream, chunk_size, last);
        let after = with_chunks(pixels, width, stream, chunk_size, count);
        lemma_with_chunks(pixels, width, stream, chunk_size, last);
        assert forall|place: (int, int)| stegimage::in_header(place) implies after[place]
            == pixels[place] by {
            stegimage::lemma_coordinates(width, 1, last, last);
            assert(place != coordinates(width, last));
            assert(after[place] == before[place]);
        }
        assert forall|order: nat| order >= count implies after[#[trigger] coordinates(width, order)]
            == pixels[coordinates(width, order)] by {
            stegimage::lemma_coordinates(width, 1, last, order);
            assert(after[coordinates(width, order)] == before[coordinates(width, order)]);
        }
        assert forall|order: nat| order < count implies after[#[trigger] coordinates(width, order)]
            == stegimage::hidden_in(
            pixels[coordinates(width, order)],
            bits_value(chunk_bits(stream, chunk_size, order)),
            chunk_bits(stream, chunk_size, order).len(),
        ) by {
            if order < last {
                stegimage::lemma_coordinates(width, 1, order, last);
                assert(after[coordinates(width, order)] == before[coordinates(width, order)]);
            } else {
                assert(before[coordinates(width, last)] == pixels[coordinates(width, last)]);
            }
        }
    }
}

/// The bits read from the pixels of the first chunks of a stream, after the
/// chunks were hidden, are those chunks, where every chunk is whole.
pub proof fn lemma_hidden_stream(
    pixels: Map<(int, int), Seq<u8>>,
    width: nat,
    stream: Seq<bool>,
    chunk_size: nat,
    count: nat,
    read: nat,
)
    requires
        32 <= width,
        1 <= chunk_size <= 24,
        read <= count,
        count * chunk_size <= stream.len(),
    ensures
        hidden_stream(
            with_chunks(pixels, width, stream, chunk_size, count),
            width,
            chunk_size,
            read,
        ) == fileio::joined_chunks(stream, chunk_size, read),
    decreases read,
{
    if read > 0 {
        let order = (read - 1) as nat;
        let hidden = with_chunks(pixels, width, stream, chunk_size, count);
        let chunk = chunk_bits(stream, chunk_size, order);
        lemma_hidden_stream(pixels, width, stream, chunk_size, count, order);
        lemma_with_chunks(pixels, width, stream, chunk_size, count);
        assert((order + 1) * chunk_size <= count * chunk_size) by (nonlinear_arith)
            requires
                order + 1 <= count,
        ;
        assert((order + 1) * chunk_size == order * chunk_size + chunk_size) by (nonlinear_arith);
        assert(chunk.len() == chunk_size);
        crate::bits::lemma_bits_value_bound(chunk);
        crate::bits::lemma_value_bits_of_bits_value(chunk);
        stegimage::lemma_hidden_in(
            pixels[coordinates(width, order)],
            bits_value(chunk),
            chunk_size,
        );
        assert(hidden[coordinates(width, order)] == stegimage::hidden_in(
            pixels[coordinates(width, order)],
            bits_value(chunk),
            chunk_size,
        ));
    }
}

/// End to end: what extraction reads from an image in which a payload was
/// hidden is the payload, where the bits of the payload fill the chunks that
/// they are cut into. (Extraction reads whole chunks: where the last chunk of
/// the payload is short, what it reads there holds bits of the host too.)
pub proof fn lemma_hide_then_extract(
    pixels: Map<(int, int), Seq<u8>>,
    width: nat,
    height: nat,
    payload: Seq<u8>,
)
    requires
        32 <= width,
        1 <= height,
        payload.len() <= u32::MAX,
        fits(payload.len(), stegimage::usable_pixels(width, height)),
        density(payload.len(), stegimage::usable_pixels(width, height)) != 0 ==> (8
            * payload.len()) % density(payload.len(), stegimage::usable_pixels(width, height))
            == 0,
    ensures
        header_value(with_payload(pixels, width, height, payload)) == payload.len(),
        extracted(with_payload(pixels, width, height, payload), width, height) == payload,
{
    let usable = stegimage::usable_pixels(width, height);
    let size = payload.len();
    let chunk_size = density(size, usable);
    let stream = stream_bits(payload);
    let count = chunk_count(8 * size, chunk_size);
    let headed = with_header(pixels, size, 32);
    let hidden = with_payload(pixels, width, height, payload);
    lemma_density(size, usable);
    // the header is as it was written
    lemma_with_chunks(headed, width, stream, chunk_size, count);
    stegimage::lemma_header_round_trip(pixels, size);
    assert(stegimage::header_bits(hidden) =~= stegimage::header_bits(headed)) by {
        assert forall|i: int| 0 <= i < 32 implies stegimage::header_bits(hidden)[i]
            == stegimage::header_bits(headed)[i] by {
            assert(stegimage::in_header((i, 0int)));
        }
    }
    assert(header_value(hidden) == size);
    if chunk_size == 0 {
        assert(size == 0);
        assert(count == 0);
        assert(padded(hidden_stream(hidden, width, chunk_size, count)) =~= Seq::<bool>::empty());
        assert(whole_bytes(Seq::<bool>::empty()) =~= payload);
    } else {
        // every chunk is whole
        vstd::arithmetic::div_mod::lemma_fundamental_div_mod(
            (8 * size) as int,
            chunk_size as int,
        );
        let whole = (8 * size) as int / (chunk_size as int);
        vstd::arithmetic::div_mod::lemma_div_pos_is_pos((8 * size) as int, chunk_size as int);
        assert(whole * chunk_size == 8 * size) by (nonlinear_arith)
            requires
                8 * size == chunk_size * whole + 0,
        ;
        lemma_chunk_count(8 * size, chunk_size, whole as nat);
        if whole >= 1 {
            lemma_chunk_count(8 * size, chunk_size, (whole - 1) as nat);
            assert((whole - 1) * chunk_size < 8 * size) by (nonlinear_arith)
                requires
                    whole * chunk_size == 8 * size,
                    chunk_size >= 1,
            ;
        }
        assert(count == whole);
        lemma_hidden_stream(headed, width, stream, chunk_size, count, count);
        fileio::lemma_joined_chunks(stream, chunk_size, count);
        crate::bits::lemma_padded_whole_bytes(payload);
    }
}

} // verus!
