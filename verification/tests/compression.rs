use std::io::Read;

use squashfs_image::compressor::{compress, store, Compressor};
use squashfs_image::data::{Added, DataWriter};
use squashfs_image::error::SquashfsError;

fn sample(len: usize) -> Vec<u8> {
    (0..len).map(|i| (i / 50 % 7) as u8).collect()
}

#[test]
fn zlib_stream_is_expanded_again() {
    for len in [0, 1, 5000, 200000] {
        let stream = compress(&sample(len), Compressor::Gzip).unwrap();
        // the best compression
        assert_eq!(stream[..2], [0x78, 0xda]);
        let mut out = vec![];
        flate2::read::ZlibDecoder::new(&stream[..]).read_to_end(&mut out).unwrap();
        assert_eq!(out, sample(len));
        assert_eq!(compress(&sample(len), Compressor::Gzip).unwrap(), stream);
    }
}

#[test]
fn xz_stream_is_expanded_again() {
    for len in [0, 1, 4095, 4097, 200000, 1200000] {
        let stream = compress(&sample(len), Compressor::Xz).unwrap();
        // the magic number, and a CRC32 to guard it
        assert_eq!(stream[..8], [0xfd, b'7', b'z', b'X', b'Z', 0, 0, 1]);
        let mut out = vec![];
        xz2::read::XzDecoder::new(&stream[..]).read_to_end(&mut out).unwrap();
        assert_eq!(out, sample(len));
        assert_eq!(compress(&sample(len), Compressor::Xz).unwrap(), stream);
    }
}

#[test]
fn uncompressed_is_kept() {
    assert_eq!(compress(&sample(100), Compressor::Uncompressed), Ok(sample(100)));
}

#[test]
fn other_compressors_are_refused() {
    for compressor in [Compressor::Lzma, Compressor::Lzo, Compressor::Lz4, Compressor::Zstd] {
        assert_eq!(
            compress(&sample(100), compressor),
            Err(SquashfsError::UnsupportedCompression(compressor))
        );
    }
}

#[test]
fn blocks_are_stored_compressed_where_that_saves_space() {
    for compressor in [Compressor::Gzip, Compressor::Xz] {
        let (block, smaller) = store(&sample(5000), compressor);
        assert!(smaller);
        assert_eq!(block, compress(&sample(5000), compressor).unwrap());
        assert_eq!(store(b"abc", compressor), (b"abc".to_vec(), false));
    }
    assert_eq!(store(&sample(5000), Compressor::Uncompressed), (sample(5000), false));
}

#[test]
fn large_files_have_blocks_of_their_own() {
    let mut writer = DataWriter::new(Compressor::Uncompressed, 96, 16);
    let added = writer.add_bytes(&sample(40)).unwrap();
    let block_sizes = vec![0x0100_0010, 0x0100_0010, 0x0100_0008];
    assert_eq!(added, Added::Data { blocks_start: 96, block_sizes });
    let added = writer.add_bytes(&sample(16)).unwrap();
    assert_eq!(added, Added::Data { blocks_start: 136, block_sizes: vec![0x0100_0010] });
    assert_eq!(writer.add_bytes(&[]).unwrap(), Added::Data { blocks_start: 152, block_sizes: vec![] });
    assert!(writer.finalize());
    assert_eq!(writer.data_bytes, [sample(40), sample(16)].concat());
    assert!(writer.fragment_table.is_empty());
}

#[test]
fn small_files_are_put_in_fragments() {
    let mut writer = DataWriter::new(Compressor::Uncompressed, 96, 16);
    assert_eq!(writer.add_bytes(&[1; 10]), Some(Added::Fragment { frag_index: 0, block_offset: 0 }));
    assert_eq!(writer.add_bytes(&[2; 6]), Some(Added::Fragment { frag_index: 0, block_offset: 10 }));
    assert_eq!(writer.add_bytes(&[3; 1]), Some(Added::Fragment { frag_index: 1, block_offset: 0 }));
    assert!(writer.finalize());
    assert!(writer.finalize());
    let starts: Vec<(u64, u32)> = writer.fragment_table.iter().map(|f| (f.start, f.size)).collect();
    assert_eq!(starts, [(96, 0x0100_0010), (112, 0x0100_0001)]);
    assert_eq!(writer.data_bytes, [vec![1; 10], vec![2; 6], vec![3; 1]].concat());
}

#[test]
fn compressed_blocks_are_not_marked() {
    let mut writer = DataWriter::new(Compressor::Gzip, 96, 0x1000);
    let stream = compress(&sample(0x1000), Compressor::Gzip).unwrap();
    let added = writer.add_bytes(&sample(0x1000)).unwrap();
    assert_eq!(added, Added::Data { blocks_start: 96, block_sizes: vec![stream.len() as u32] });
    assert_eq!(writer.data_bytes, stream);
}

#[test]
fn data_that_cannot_be_referred_to_is_refused() {
    let mut writer = DataWriter::new(Compressor::Uncompressed, u32::MAX, 16);
    assert!(writer.add_bytes(&sample(16)).is_some());
    assert_eq!(writer.add_bytes(&sample(16)), None);
    assert_eq!(writer.data_bytes, sample(16));
    let mut writer = DataWriter::new(Compressor::Uncompressed, 96, 0);
    assert_eq!(writer.add_bytes(&[1]), None);
}
