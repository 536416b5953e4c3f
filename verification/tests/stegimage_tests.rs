use std::io::Cursor;
use std::path::PathBuf;

use bitreader::BitReader;
use image::{DynamicImage, GenericImageView, ImageBuffer, ImageFormat};
use steganer::bytetools::{bytes_to_u24, get_bits, mask, u24_to_bytes};
use steganer::errors::SteganerError;
use steganer::fileio::Chunk;
use steganer::stegimage::{
    supported_image, ContainerImage, Position, ReadingState, HEADER_PIXEL_LENGTH, SIZE_LENGTH,
};

enum TestColors {
    BLACK,
    WHITE
}

fn create_test_image(fill_color: TestColors) -> (DynamicImage, PathBuf) {
    match fill_color {
        TestColors::BLACK => save_image_filled([0, 0, 0]),
        TestColors::WHITE => save_image_filled([255, 255, 255]),
    }
}

fn create_test_image_with_custom_color(fill_color: u32) -> (DynamicImage, PathBuf) {
    save_image_filled(u24_to_bytes(fill_color))
}

fn save_image_filled(color: [u8; 3]) -> (DynamicImage, PathBuf) {
    let color = image::Rgb(color);
    let test_image = ImageBuffer::from_fn(512, 512, |_, _| {color});
    let test_image_path = PathBuf::from("test_image.png");
    (DynamicImage::ImageRgb8(test_image), test_image_path)
}

/// Writes an image as a file of the given format, in memory, and reads it
/// back.
fn through_a_file(image: &DynamicImage, format: ImageFormat) -> DynamicImage {
    let mut file: Vec<u8> = Vec::new();
    image.write_to(&mut Cursor::new(&mut file), format)
        .expect("Image could not be saved");
    image::load_from_memory_with_format(&file, format)
        .expect("Something wrong happened opening given image")
}

#[test]
fn test_supported_image() {
    // Check supported images.
    assert!(supported_image("path/dummy.png").unwrap_or(false));
    assert!(supported_image("path1/path2/dummy.ppm").unwrap_or(false));
    assert!(supported_image("dummy.bmp").unwrap_or(false));
    // Check unsupported images.
    assert!(!supported_image("dummy.jpg").unwrap_or(false));
    assert!(!supported_image("path/dummy.ico").unwrap_or(false));
}

#[test]
fn test_support_image_with_no_extension() {
    if let Err(ref error) = supported_image("path/dummy") {
        let mut error_message_found = false;
        let message: String = error.description();
        if message.contains("no extension") { error_message_found = true; }
        if !error_message_found { assert!(false) };
    } else {
        assert!(false);
    }
}

#[test]
fn test_get_chunk_size() {
    let (test_image, test_image_path) = create_test_image(TestColors::BLACK);
    let container = ContainerImage::new(test_image_path.to_str()
        .expect("Something wrong happened converting test image path to str"), test_image).unwrap();
    // Temporary test image has 512x512 = 262.144 pixels.
    // But we use first HEADER_PIXEL_LENGTH bits for header, so we can use
    // 262.144 - HEADER_PIXEL_LENGTH to hide data.
    let chunk_size = container.get_chunk_size(8156).unwrap(); // Size of resources/genesis.txt is 8156.
    let expected_chunk_size = ((8156_f64 * 8_f64) / ((512_f64*512_f64) - HEADER_PIXEL_LENGTH as f64)).ceil() as u8;
    assert_eq!(expected_chunk_size, chunk_size,
               "Recovered chunk size was not what we were expecting. Expected {} but got {}",
               expected_chunk_size, chunk_size);
}

#[test]
#[should_panic]
fn test_get_chunk_size_file_too_big() {
    let (test_image, test_image_path) = create_test_image(TestColors::BLACK);
    let container = ContainerImage::new(test_image_path.to_str()
        .expect("Something wrong happened converting test image path to str"), test_image).unwrap();
    // Temporary test image has 512x512 = 262.144 pixels.
    // But we use first HEADER_PIXEL_LENGTH bits for header, so we can use
    // 262.144 - HEADER_PIXEL_LENGTH to hide data = 262.112 pixels.
    // Every pixel can hide up to 24 bits os hidden data, so this
    // image can hide up to 6.290.688 bits = 786.336 bytes.
    let _chunk_size = container.get_chunk_size(800000).unwrap();
}

#[test]
fn test_encode_header() {
    let encoded_size: u32 = 33;
    let (test_image, test_image_path) = create_test_image(TestColors::BLACK);
    let mut container = ContainerImage::new(test_image_path.to_str()
        .expect("Something wrong happened converting test image path to str"), test_image).unwrap();
    container.encode_header(encoded_size);
    let mut recovered_size: u64 = 0;
    let bits_per_pixel = SIZE_LENGTH / HEADER_PIXEL_LENGTH;
    for i in 0..HEADER_PIXEL_LENGTH {
        let pixel = container.image().get_pixel(i as u32, 0);
        let pixel_hidden_bits = bytes_to_u24(&[pixel[0], pixel[1], pixel[2]]) & mask::<u32>(bits_per_pixel, false);
        recovered_size += (pixel_hidden_bits as u64) << (bits_per_pixel * (HEADER_PIXEL_LENGTH - 1 - i));
    }
    assert_eq!(recovered_size as u32, encoded_size,
        "Error recovering encoded header: Expected {} but recovered {}",
        encoded_size, recovered_size as u32);
}

#[test]
fn test_decode_header() {
    let encoded_size: u32 = 33;
    let (mut test_image, test_image_path) = create_test_image(TestColors::BLACK);
    let bits_per_pixel = SIZE_LENGTH / HEADER_PIXEL_LENGTH;
    for i in 0..HEADER_PIXEL_LENGTH {
        // First encode header manually.
        let bits = get_bits(encoded_size, i * bits_per_pixel, bits_per_pixel) as u32;
        let pixel = test_image.as_mut_rgb8()
            .expect("Error accessing to test image")
            .get_pixel_mut(i as u32, 0);
        let original_value = bytes_to_u24(&[pixel[0], pixel[1], pixel[2]]);
        let modified_value = (original_value & mask::<u32>(bits_per_pixel, true)) + bits;
        let modified_bytes = u24_to_bytes(modified_value);
        *pixel = image::Rgb([modified_bytes[0], modified_bytes[1], modified_bytes[2]]);
    }
    let container = ContainerImage::new(test_image_path.to_str()
        .expect("Something wrong happened converting test image path to str"), test_image).unwrap();
    // Now decode with tested function.
    let decoded_size = container.decode_header();
    assert_eq!(decoded_size, encoded_size, "Error decoding header: Expected {} but recovered {}",
               encoded_size, decoded_size);
}

#[test]
fn test_encode_less_than_8_bits() {
    let test_bits: u32 = 0b_10110;
    let test_bits_length: u8 = 5;
    let (test_image, test_image_path) = create_test_image(TestColors::BLACK);
    let mut container = ContainerImage::new(test_image_path.to_str()
        .expect("Something wrong happened converting test image path to str"), test_image).unwrap();
    container.encode_bits(test_bits, test_bits_length, 0, 0);
    let pixel = container.image().get_pixel(0,0);
    assert_eq!(pixel.0[2], test_bits as u8,
               "Error encoding less than 8 bits. Expected {} but encoded {}",
               test_bits, pixel.0[2]);
}

#[test]
fn test_encode_up_to_16_bits() {
    let mut test_bits: u32 = 0;
    let expected_upper_byte: u8 = 0b_00110100;
    let expected_lower_byte: u8 = 0b_00010110;
    test_bits = test_bits + (expected_upper_byte as u32);
    test_bits = test_bits << 8;
    test_bits = test_bits + (expected_lower_byte as u32);
    let test_bits_length: u8 = 14;
    let (test_image, test_image_path) = create_test_image(TestColors::BLACK);
    let mut container = ContainerImage::new(test_image_path.to_str()
        .expect("Something wrong happened converting test image path to str"), test_image).unwrap();
    container.encode_bits(test_bits, test_bits_length, 0, 0);
    let pixel = container.image().get_pixel(0,0);
    assert_eq!(pixel.0[1], expected_upper_byte,
               "Error encoding more than 8 bits. Upper byte expected {} but encoded {}",
               expected_upper_byte, pixel.0[1]);
    assert_eq!(pixel.0[2], expected_lower_byte,
               "Error encoding more than 8 bits. Lower byte expected {} but encoded {}",
               expected_lower_byte, pixel.0[2]);
}

#[test]
fn test_encode_up_to_24_bits() {
    let mut test_bits: u32 = 0;
    let expected_upper_byte: u8 = 0b_00000110;
    let expected_middle_byte: u8 = 0b_00110100;
    let expected_lower_byte: u8 = 0b_00010110;
    test_bits = test_bits + ((expected_upper_byte as u32) << 16) +
        ((expected_middle_byte as u32) << 8) +
        (expected_lower_byte as u32);
    let test_bits_length: u8 = 19;
    let (test_image, test_image_path) = create_test_image(TestColors::BLACK);
    let mut container = ContainerImage::new(test_image_path.to_str()
        .expect("Something wrong happened converting test image path to str"), test_image).unwrap();
    container.encode_bits(test_bits, test_bits_length, 0, 0);
    let pixel = container.image().get_pixel(0,0);
    assert_eq!(pixel.0[0], expected_upper_byte,
               "Error encoding more than 16 bits. Upper byte expected {} but encoded {}",
               expected_upper_byte, pixel.0[0]);
    assert_eq!(pixel.0[1], expected_middle_byte,
               "Error encoding more than 16 bits. Middle byte expected {} but encoded {}",
               expected_middle_byte, pixel.0[1]);
    assert_eq!(pixel.0[2], expected_lower_byte,
               "Error encoding more than 16 bits. Lower byte expected {} but encoded {}",
               expected_lower_byte, pixel.0[2]);
}

#[test]
fn test_encode_less_than_8_bits_masked() {
    let test_bits: u32 = 0b_10110;
    let expected_recovered_bits: u8 = 0b_111_10110;
    let test_bits_length: u8 = 5;
    let (test_image, test_image_path) = create_test_image(TestColors::WHITE);
    let mut container = ContainerImage::new(test_image_path.to_str()
        .expect("Something wrong happened converting test image path to str"), test_image).unwrap();
    container.encode_bits(test_bits, test_bits_length, 0, 0);
    let pixel = container.image().get_pixel(0,0);
    assert_eq!(pixel.0[2], expected_recovered_bits,
               "Error encoding less than 8 bits masked. Expected {} but encoded {}",
               expected_recovered_bits, pixel.0[2]);
}

#[test]
fn test_encode_up_to_16_bits_masked() {
    let mut test_bits: u32 = 0;
    let expected_upper_byte: u8 = 0b_00110100;
    let expected_lower_byte: u8 = 0b_00010110;
    test_bits = test_bits + (expected_upper_byte as u32);
    test_bits = test_bits << 8;
    test_bits = test_bits + (expected_lower_byte as u32);
    let test_bits_length: u8 = 14;
    let expected_recovered_upper_byte: u8 = 0b_11_110100;
    let (test_image, test_image_path) = create_test_image(TestColors::WHITE);
    let mut container = ContainerImage::new(test_image_path.to_str()
        .expect("Something wrong happened converting test image path to str"), test_image).unwrap();
    container.encode_bits(test_bits, test_bits_length, 0, 0);
    let pixel = container.image().get_pixel(0,0);
    assert_eq!(pixel.0[1], expected_recovered_upper_byte,
               "Error encoding more than 8 bits. Upper byte expected {} but encoded {}",
               expected_recovered_upper_byte, pixel.0[1]);
    assert_eq!(pixel.0[2], expected_lower_byte,
               "Error encoding more than 8 bits. Lower byte expected {} but encoded {}",
               expected_lower_byte, pixel.0[2]);
}

#[test]
fn test_encode_up_to_24_bits_masked() {
    let mut test_bits: u32 = 0;
    let expected_upper_byte: u8 = 0b_00000110;
    let expected_middle_byte: u8 = 0b_00110100;
    let expected_lower_byte: u8 = 0b_00010110;
    test_bits = test_bits + ((expected_upper_byte as u32) << 16) +
        ((expected_middle_byte as u32) << 8) +
        (expected_lower_byte as u32);
    let test_bits_length: u8 = 19;
    let expected_recovered_upper_byte: u8 = 0b_11111_110;
    let (test_image, test_image_path) = create_test_image(TestColors::WHITE);
    let mut container = ContainerImage::new(test_image_path.to_str()
        .expect("Something wrong happened converting test image path to str"), test_image).unwrap();
    container.encode_bits(test_bits, test_bits_length, 0, 0);
    let pixel = container.image().get_pixel(0,0);
    assert_eq!(pixel.0[0], expected_recovered_upper_byte,
               "Error encoding more than 16 bits. Upper byte expected {} but encoded {}",
               expected_recovered_upper_byte, pixel.0[0]);
    assert_eq!(pixel.0[1], expected_middle_byte,
               "Error encoding more than 16 bits. Middle byte expected {} but encoded {}",
               expected_middle_byte, pixel.0[1]);
    assert_eq!(pixel.0[2], expected_lower_byte,
               "Error encoding more than 16 bits. Lower byte expected {} but encoded {}",
               expected_lower_byte, pixel.0[2]);
}

#[test]
fn test_decode_less_than_8_bits() {
    let test_bits: u32 = 0b_10110;
    let test_bits_length: u8 = 5;
    let (test_image, test_image_path) = create_test_image_with_custom_color(test_bits);
    let container = ContainerImage::new(test_image_path.to_str()
        .expect("Something wrong happened converting test image path to str"), test_image).unwrap();
    let recovered_bits = container.decode_bits( 0, 0, test_bits_length);
    assert_eq!(test_bits, recovered_bits,
               "Error decoding less than 8 bits. Expected {} but encoded {}",
               test_bits, recovered_bits);
}

#[test]
fn test_decode_up_to_16_bits() {
    let mut test_bits: u32 = 0;
    let expected_upper_byte: u8 = 0b_00110100;
    let expected_lower_byte: u8 = 0b_00010110;
    test_bits = test_bits + (expected_upper_byte as u32);
    test_bits = test_bits << 8;
    test_bits = test_bits + (expected_lower_byte as u32);
    let test_bits_length: u8 = 14;
    let (test_image, test_image_path) = create_test_image_with_custom_color(test_bits);
    let container = ContainerImage::new(test_image_path.to_str()
        .expect("Something wrong happened converting test image path to str"), test_image).unwrap();
    let recovered_bits = container.decode_bits( 0, 0, test_bits_length);
    let recovered_bytes = u24_to_bytes(recovered_bits);
    assert_eq!(expected_upper_byte, recovered_bytes[1],
               "Error decoding more than 8 bits. Upper byte expected {} but encoded {}",
               expected_upper_byte, recovered_bytes[1]);
    assert_eq!(expected_lower_byte, recovered_bytes[2],
               "Error decoding more than 8 bits. Lower byte expected {} but encoded {}",
               expected_lower_byte, recovered_bytes[2]);
}

#[test]
fn test_decode_up_to_24_bits() {
    let mut test_bits: u32 = 0;
    let expected_upper_byte: u8 = 0b_00000110;
    let expected_middle_byte: u8 = 0b_00110100;
    let expected_lower_byte: u8 = 0b_00010110;
    test_bits = test_bits + ((expected_upper_byte as u32) << 16) +
        ((expected_middle_byte as u32) << 8) +
        (expected_lower_byte as u32);
    let test_bits_length: u8 = 19;
    let (test_image, test_image_path) = create_test_image_with_custom_color(test_bits);
    let container = ContainerImage::new(test_image_path.to_str()
        .expect("Something wrong happened converting test image path to str"), test_image).unwrap();
    let recovered_bits = container.decode_bits( 0, 0, test_bits_length,);
    let recovered_bytes = u24_to_bytes(recovered_bits);
    assert_eq!(expected_upper_byte, recovered_bytes[0],
               "Error decoding more than 16 bits. Upper byte expected {} but decoded {}",
               expected_upper_byte, recovered_bytes[0]);
    assert_eq!(expected_middle_byte, recovered_bytes[1],
               "Error decoding more than 16 bits. Middle byte expected {} but decoded {}",
               expected_middle_byte, recovered_bytes[1]);
    assert_eq!(expected_lower_byte, recovered_bytes[2],
               "Error decoding more than 16 bits. Lower byte expected {} but decoded {}",
               expected_lower_byte, recovered_bytes[2]);
}

#[test]
fn test_get_coordinates() {
    let test_image_width: u32 = 512;
    let position_first_row = 5;
    let position_second_row = 570;
    let position_third_row = 1100;
    let expected_first_row_coordinates = Position{x: (HEADER_PIXEL_LENGTH + 5) as u32, y: 0};
    let expected_second_row_coordinates = Position{x: (position_second_row as u32 - test_image_width + HEADER_PIXEL_LENGTH as u32), y: 1};
    let expected_third_row_coordinates = Position{x: (position_third_row as u32 - (test_image_width * 2) + HEADER_PIXEL_LENGTH as u32), y: 2};
    // Test environment build.
    let (test_image, test_image_path) = create_test_image(TestColors::BLACK);
    let container = ContainerImage::new(test_image_path.to_str()
        .expect("Something wrong happened converting test image path to str"), test_image).unwrap();
    // Tests.
    let recovered_position_first_row = container.get_coordinates(position_first_row);
    assert_eq!(expected_first_row_coordinates, recovered_position_first_row,
               "Recovered position for first row was not what we were expecting. Expected {:?} but got {:?}",
               &expected_first_row_coordinates, recovered_position_first_row);
    let recovered_position_second_row = container.get_coordinates(position_second_row);
    assert_eq!(expected_second_row_coordinates, recovered_position_second_row,
               "Recovered position for second row was not what we were expecting. Expected {:?} but got {:?}",
               &expected_second_row_coordinates, recovered_position_second_row);
    let recovered_position_third_row = container.get_coordinates(position_third_row);
    assert_eq!(expected_third_row_coordinates, recovered_position_third_row,
               "Recovered position for third row was not what we were expecting. Expected {:?} but got {:?}",
               &expected_third_row_coordinates, recovered_position_third_row);
}

#[test]
fn test_encode_data() {
    let hidden_data = 0b_111000111_u32;
    let hidden_data_length = 9;
    let position = 5_u8;
    let chunk = Chunk::new(hidden_data, hidden_data_length, position as u32);
    // Test environment build.
    let (test_image, test_image_path) = create_test_image(TestColors::BLACK);
    let mut container = ContainerImage::new(test_image_path.to_str()
        .expect("Something wrong happened converting test image path to str"), test_image).unwrap();
    // Test:
    container.hide_data(&chunk);
    let pixel = container.image().get_pixel((HEADER_PIXEL_LENGTH + position) as u32, 0);
    assert_eq!(0b_1_u8, pixel.0[1],
               "Recovered data for upper byte was not what we were expecting. Expected {:#b} but got {:#b}",
               0b_1_u8, pixel.0[1]);
    assert_eq!(0b_11000111_u8, pixel.0[2],
               "Recovered data for lower byte was not what we were expecting. Expected {:#b} but got {:#b}",
               0b_11000111_u8, pixel.0[2]);
}

#[test]
fn test_header_and_hidden_data_dont_overlap() {
    let header = 0b_1_u32;
    let hidden_data = 0b_0000_0000_0000_0000_1010_0101_1100_0111_u32;
    let hidden_data_length = 24;
    let position = 0_u8;
    let chunk = Chunk::new(hidden_data, hidden_data_length, position as u32);
    // Test environment build.
    let (test_image, test_image_path) = create_test_image(TestColors::BLACK);
    let mut container = ContainerImage::new(test_image_path.to_str()
        .expect("Something wrong happened converting test image path to str"), test_image).unwrap();
    // Test:
    container.encode_header(header);
    container.hide_data(&chunk);
    let recovered_header = container.decode_header();
    assert_eq!(header, recovered_header,
               "Recovered data for header was not what we were expecting. Expected {:#b} but got {:#b}",
               header, recovered_header);
    let pixel = container.image().get_pixel((HEADER_PIXEL_LENGTH + position) as u32, 0);
    assert_eq!(0b_0000_0000_u8, pixel.0[0],
               "Recovered data for upper byte was not what we were expecting. Expected {:#b} but got {:#b}",
               0b_0000_0000_u8, pixel.0[0]);
    assert_eq!(0b_1010_0101__u8, pixel.0[1],
               "Recovered data for middle byte was not what we were expecting. Expected {:#b} but got {:#b}",
               0b_1010_0101_u8, pixel.0[1]);
    assert_eq!(0b_1100_0111_u8, pixel.0[2],
               "Recovered data for lower byte was not what we were expecting. Expected {:#b} but got {:#b}",
               0b_1100_0111_u8, pixel.0[2]);
}

#[test]
fn test_container_image_iterator() {
    let hidden_data: [u32; 3] = [0b_1010_0101_1100_0111_u32,
        0b_1111_0000_0000_1111_u32,
        0b_1111_1010_0000_0000_u32];
    // I actually hide only 3 bytes per u32 so hidden file size is 3*3 instead of 3*4 bytes.
    let hidden_data_size = (3*3) as usize;
    // Build test environment.
    let (test_image, test_image_path) = create_test_image(TestColors::BLACK);
    let mut container = ContainerImage::new(test_image_path.to_str()
        .expect("Something wrong happened converting test image path to str"), test_image).unwrap();
    // Populate test environment with hidden data.
    let chunk_size = container.setup_hiding(hidden_data_size as u32).unwrap();
    let mut position = 0_u32;
    for data in hidden_data.iter() {
        let data_bytes = u24_to_bytes(*data);
        let mut bit_reader = BitReader::new(&data_bytes);
        for _ in 0..(24/chunk_size) {
            let data_chunk = bit_reader.read_u32(chunk_size)
                .expect("Error reading data chunk.");
            let chunk = Chunk::new(data_chunk, chunk_size, position as u32);
            container.hide_data(&chunk);
            position += 1;
        }
    }
    // Test.
    let mut recovered_data: [u32; 3] = [0; 3];
    container.setup_hidden_data_extraction().unwrap();
    let mut i: usize = 0;
    while let Some(chunk) = container.next() {
        let u24_index = i / 24;
        recovered_data[u24_index] = (recovered_data[u24_index] << chunk_size) + chunk.data;
        i += 1;
    }
    assert_eq!(hidden_data, recovered_data,
               "ContainerImage iterator did not recover expected data. Expected {:#?} but recovered {:#?}",
               hidden_data, recovered_data)
}

#[test]
fn test_drop() {
    let dummy_size = 6363_u32;
    // Build test environment.
    let (test_image, test_image_path) = create_test_image(TestColors::BLACK);
    let saved_image = {
        let mut container = ContainerImage::new(test_image_path.to_str()
            .expect("Something wrong happened converting test image path to str"), test_image).unwrap();
        let _ = container.setup_hiding(dummy_size);
        // Here container is written as a file, with dummy_size encoded at its header.
        through_a_file(&container.into_image(), ImageFormat::Png)
    };
    // Now try to recover encoded size.
    let mut container = ContainerImage::new(test_image_path.to_str()
        .expect("Something wrong happened converting test image path to str"), saved_image).unwrap();
    container.setup_hidden_data_extraction().unwrap();
    if let Some(state) = &container.reading_state() {
        let extracted_size = state.hidden_file_size;
        assert_eq!(dummy_size, extracted_size,
                   "Recovered size is not what we were expecting. Expected {} but recovered {}.",
                   dummy_size, extracted_size);
    } else {
        assert!(false, "No reading state recovered");
    }
}

#[test]
fn test_supported_image_whatever_the_case() {
    assert_eq!(Ok(true), supported_image("dummy.PNG"));
    assert_eq!(Ok(true), supported_image("dummy.Bmp"));
    assert_eq!(Ok(true), supported_image("dummy.pPm"));
    assert_eq!(Ok(true), supported_image(".png"));
    assert_eq!(Ok(true), supported_image("archive.tar.png"));
    assert_eq!(Ok(false), supported_image("dummy.pn"));
    assert_eq!(Ok(false), supported_image("dummy.pngx"));
    assert_eq!(Ok(false), supported_image("dummy.png."));
    assert_eq!(Ok(false), supported_image("dummy."));
    assert_eq!(Ok(false), supported_image("dummy.tga"));
    assert_eq!(Ok(false), supported_image("dummy.png/readme"));
    assert_eq!(Ok(false), supported_image("dummy.p\u{00f1}g"));
    assert_eq!(Err(SteganerError::NoExtension), supported_image("png"));
    assert_eq!(Err(SteganerError::NoExtension), supported_image(""));
}

#[test]
fn test_error_descriptions() {
    assert_eq!("Error: host file has no extension to check it is supported.",
               SteganerError::NoExtension.description());
    assert_eq!("Image type not supported.", SteganerError::UnsupportedFormat.description());
    assert_eq!("File to be hidden is too big for this host image.",
               SteganerError::CapacityExceeded.description());
    assert_eq!("File to hide is too big. Maximum size is 4294967295",
               SteganerError::SizeOverflow.description());
}

#[test]
fn test_new_refuses_what_cannot_host() {
    let (test_image, _) = create_test_image(TestColors::BLACK);
    // Names.
    assert_eq!(Some(SteganerError::UnsupportedFormat),
               ContainerImage::new("test_image.jpg", test_image.clone()).err());
    assert_eq!(Some(SteganerError::UnsupportedFormat),
               ContainerImage::new("test_image", test_image.clone()).err());
    // Pixels that are not 8-bit RGB or RGBA.
    assert_eq!(Some(SteganerError::UnsupportedFormat),
               ContainerImage::new("test_image.png", DynamicImage::new_luma8(512, 512)).err());
    assert_eq!(Some(SteganerError::UnsupportedFormat),
               ContainerImage::new("test_image.png", DynamicImage::new_rgb16(512, 512)).err());
    // No room for the header.
    assert_eq!(Some(SteganerError::CapacityExceeded),
               ContainerImage::new("test_image.png", DynamicImage::new_rgb8(31, 512)).err());
    assert_eq!(Some(SteganerError::CapacityExceeded),
               ContainerImage::new("test_image.png", DynamicImage::new_rgb8(32, 0)).err());
    // The smallest host, and hosts with an alpha byte.
    assert!(ContainerImage::new("test_image.png", DynamicImage::new_rgb8(32, 1)).is_ok());
    assert!(ContainerImage::new("test_image.bmp", DynamicImage::new_rgba8(40, 3)).is_ok());
    let container = ContainerImage::new("test_image.ppm", test_image).unwrap();
    assert_eq!("test_image.ppm", container.file_pathname());
    assert_eq!(None, container.reading_state());
    assert_eq!((512, 512), container.image().dimensions());
}

#[test]
fn test_header_round_trip() {
    for size in [0_u32, 1, 33, 8156, 0x8000_0000, 0xDEAD_BEEF, u32::MAX] {
        let (test_image, _) = create_test_image_with_custom_color(0x00AB_CDEF);
        let mut container = ContainerImage::new("test_image.png", test_image).unwrap();
        container.encode_header(size);
        assert_eq!(size, container.decode_header());
        // Only the lowest bit of each header pixel was touched.
        for column in 0..32_u32 {
            let pixel = container.image().get_pixel(column, 0);
            let expected_bit = ((size >> (31 - column)) & 1) as u8;
            assert_eq!([0xAB, 0xCD, 0xEE | expected_bit], [pixel.0[0], pixel.0[1], pixel.0[2]]);
        }
        // The pixel behind the header was not touched.
        let pixel = container.image().get_pixel(32, 0);
        assert_eq!([0xAB, 0xCD, 0xEF], [pixel.0[0], pixel.0[1], pixel.0[2]]);
    }
}

#[test]
fn test_capacity_boundary() {
    let (test_image, _) = create_test_image(TestColors::BLACK);
    let container = ContainerImage::new("test_image.png", test_image).unwrap();
    // 262.112 usable pixels at 24 bits each hold 786.336 bytes.
    assert_eq!(Ok(24), container.get_chunk_size(786_336));
    assert_eq!(Err(SteganerError::CapacityExceeded), container.get_chunk_size(786_337));
    assert_eq!(Err(SteganerError::CapacityExceeded), container.get_chunk_size(u32::MAX));
    // Exact values of the density.
    assert_eq!(Ok(0), container.get_chunk_size(0));
    assert_eq!(Ok(1), container.get_chunk_size(1));
    assert_eq!(Ok(1), container.get_chunk_size(32_764));
    assert_eq!(Ok(2), container.get_chunk_size(32_765));
    assert_eq!(Ok(23), container.get_chunk_size(753_572));
    assert_eq!(Ok(24), container.get_chunk_size(753_573));
    // A host without any pixel behind the header.
    let container = ContainerImage::new("test_image.png", DynamicImage::new_rgb8(32, 1)).unwrap();
    assert_eq!(Ok(0), container.get_chunk_size(0));
    assert_eq!(Err(SteganerError::CapacityExceeded), container.get_chunk_size(1));
}

#[test]
fn test_setup_hiding_refuses_before_changing_anything() {
    let (test_image, _) = create_test_image(TestColors::WHITE);
    let mut container = ContainerImage::new("test_image.png", test_image.clone()).unwrap();
    assert_eq!(Err(SteganerError::CapacityExceeded), container.setup_hiding(786_337));
    assert_eq!(test_image, container.into_image());
}

#[test]
fn test_setup_hidden_data_extraction_refuses_a_header_that_cannot_be() {
    // A white image records the size 2^32 - 1 in its header.
    let (test_image, _) = create_test_image(TestColors::WHITE);
    let mut container = ContainerImage::new("test_image.png", test_image).unwrap();
    assert_eq!(u32::MAX, container.decode_header());
    assert_eq!(Err(SteganerError::CapacityExceeded), container.setup_hidden_data_extraction());
    assert_eq!(None, container.reading_state());
    // A black one records an empty file.
    let (test_image, _) = create_test_image(TestColors::BLACK);
    let mut container = ContainerImage::new("test_image.png", test_image).unwrap();
    assert_eq!(Ok(()), container.setup_hidden_data_extraction());
    assert_eq!(Some(ReadingState::new(0, 0, 0)), container.reading_state());
    assert_eq!(None, container.next());
}

#[test]
fn test_coordinates_fill_the_image_behind_the_header() {
    let width = 40_u32;
    let height = 3_u32;
    let container = ContainerImage::new("test_image.png", DynamicImage::new_rgb8(width, height)).unwrap();
    let mut seen: Vec<(u32, u32)> = Vec::new();
    for order in 0..(width * height - 32) {
        let place = container.get_coordinates(order);
        assert!(place.x < width && place.y < height);
        assert!(!(place.y == 0 && place.x < 32));
        // Row by row.
        if let Some((x, y)) = seen.last() {
            assert!((*y, *x) < (place.y, place.x));
        }
        seen.push((place.x, place.y));
    }
    assert_eq!((width * height - 32) as usize, seen.len());
    assert_eq!(Some(&(32, 0)), seen.first());
    assert_eq!(Some(&(39, 2)), seen.last());
    assert_eq!(Position { x: 0, y: 1 }, container.get_coordinates(8));
}

#[test]
fn test_alpha_is_left_untouched() {
    let test_image = ImageBuffer::from_fn(64, 2, |x, y| {
        image::Rgba([x as u8, y as u8, 0xF0, (x * 3 + y) as u8])
    });
    let mut container = ContainerImage::new("test_image.png", DynamicImage::ImageRgba8(test_image)).unwrap();
    container.encode_header(0xFFFF_FFFF);
    container.encode_bits(0x00FF_FFFF, 24, 40, 1);
    container.hide_data(&Chunk::new(0b101, 3, 1));
    let image = container.image();
    for x in 0..64_u32 {
        for y in 0..2_u32 {
            assert_eq!((x * 3 + y) as u8, image.get_pixel(x, y).0[3]);
        }
    }
    assert_eq!([0, 0, 0xF1, 0], image.get_pixel(0, 0).0);
    assert_eq!([31, 0, 0xF1, 93], image.get_pixel(31, 0).0);
    assert_eq!([32, 0, 0xF0, 96], image.get_pixel(32, 0).0);
    assert_eq!([33, 0, 0xF5, 99], image.get_pixel(33, 0).0);
    assert_eq!([0xFF, 0xFF, 0xFF, 121], image.get_pixel(40, 1).0);
    assert_eq!(0x00FF_FFFF, container.decode_bits(40, 1, 24));
    assert_eq!(0b101, container.decode_bits(33, 0, 3));
    assert_eq!(0x00F5, container.decode_bits(33, 0, 16));
    assert_eq!(0, container.decode_bits(33, 0, 0));
}

#[test]
fn test_hiding_no_bit_changes_nothing() {
    let (test_image, _) = create_test_image_with_custom_color(0x0012_3456);
    let mut container = ContainerImage::new("test_image.png", test_image.clone()).unwrap();
    container.encode_bits(0, 0, 7, 9);
    container.hide_data(&Chunk::new(0, 0, 12));
    assert_eq!(test_image, container.into_image());
    assert_eq!([0x12, 0x34, 0x56], ContainerImage::overwrite_pixel(&[0x12, 0x34, 0x56], 0, 0));
    assert_eq!([0x12, 0x34, 0x50], ContainerImage::overwrite_pixel(&[0x12, 0x34, 0x56], 0, 4));
    assert_eq!([0xAB, 0xCD, 0xEF], ContainerImage::overwrite_pixel(&[0x12, 0x34, 0x56], 0x00AB_CDEF, 24));
    assert_eq!(0x0456, ContainerImage::extract_hidden_data(&[0x12, 0x34, 0x56], 12));
    assert_eq!(0x0012_3456, ContainerImage::extract_hidden_data(&[0x12, 0x34, 0x56], 24));
}

#[test]
fn test_next_reads_whole_chunks_in_order() {
    let (test_image, _) = create_test_image(TestColors::BLACK);
    let mut container = ContainerImage::new("test_image.png", test_image).unwrap();
    // 65.528 bytes ask for 2 bits in every pixel behind the header.
    assert_eq!(Ok(2), container.setup_hiding(65_528));
    container.hide_data(&Chunk::new(0b10, 2, 0));
    container.hide_data(&Chunk::new(0b01, 2, 1));
    container.hide_data(&Chunk::new(0b11, 2, 479));
    container.hide_data(&Chunk::new(0b11, 2, 480));
    assert_eq!(Ok(()), container.setup_hidden_data_extraction());
    assert_eq!(Some(ReadingState::new(65_528, 2, 0)), container.reading_state());
    assert_eq!(Some(Chunk::new(0b10, 2, 0)), container.next());
    assert_eq!(Some(Chunk::new(0b01, 2, 1)), container.next());
    assert_eq!(Some(Chunk::new(0, 2, 2)), container.next());
    assert_eq!(Some(ReadingState::new(65_528, 2, 3)), container.reading_state());
    let mut count = 3_u32;
    while let Some(chunk) = container.next() {
        assert_eq!(count, chunk.order);
        assert_eq!(2, chunk.length);
        assert_eq!(if count == 479 || count == 480 { 0b11 } else { 0 }, chunk.data);
        count += 1;
    }
    assert_eq!(65_528 * 4, count);
    assert_eq!(None, container.next());
}
