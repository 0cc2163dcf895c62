use genomic_query::transformer::TransformError;
use genomic_query::{SeqCompressor, SequenceRowToColumnTransformer};

#[test]
fn test() {
    let transformer = SequenceRowToColumnTransformer::new(2, 5);
    let compressor = SeqCompressor::new();
    let sequences = vec!["ABCDEFGHIJKLMNOP", "abcdefghijklmnop", "0123456789abcdef"];
    let compressed_sequences: Vec<Option<Vec<u8>>> =
        sequences.iter().map(|s| Some(compressor.compress_bytes(s.as_bytes()).unwrap())).collect();
    let columns = transformer.transform(&compressed_sequences, &compressor, &compressor, b'!').unwrap();
    let y: Vec<String> =
        columns.iter().map(|x| String::from_utf8(compressor.decompress(x).unwrap()).unwrap()).collect();
    assert_eq!(
        y,
        vec![
            "Aa0", "Bb1", "Cc2", "Dd3", "Ee4", "Ff5", "Gg6", "Hh7", "Ii8", "Jj9", "Kka", "Llb", "Mmc", "Nnd", "Ooe",
            "Ppf"
        ]
    );
}

#[test]
fn absent_rows_become_placeholders_and_round_trip() {
    let transformer = SequenceRowToColumnTransformer::new(1, 2);
    let codec = SeqCompressor::with_dict(b"ACGTACGT");
    let rows = vec![Some(codec.compress_bytes(b"ACG").unwrap()), None, Some(codec.compress_bytes(b"TTA").unwrap())];
    let columns = transformer.transform(&rows, &codec, &codec, b'N').unwrap();
    let cols: Vec<Vec<u8>> = columns.iter().map(|c| codec.decompress(c).unwrap()).collect();
    assert_eq!(cols, vec![b"ANT".to_vec(), b"CNT".to_vec(), b"GNA".to_vec()]);
    let back: Vec<Vec<u8>> = (0..3).map(|k| cols.iter().map(|c| c[k]).collect()).collect();
    assert_eq!(back, vec![b"ACG".to_vec(), b"NNN".to_vec(), b"TTA".to_vec()]);
}

#[test]
fn transform_errors() {
    let transformer = SequenceRowToColumnTransformer::new(1, 4);
    let codec = SeqCompressor::new();
    assert!(transformer.transform(&vec![], &codec, &codec, b'N').unwrap().is_empty());
    let first_absent = vec![None, Some(codec.compress_bytes(b"AC").unwrap())];
    let columns = transformer.transform(&first_absent, &codec, &codec, b'N').unwrap();
    let cols: Vec<Vec<u8>> = columns.iter().map(|c| codec.decompress(c).unwrap()).collect();
    assert_eq!(cols, vec![b"NA".to_vec(), b"NC".to_vec()]);
    assert_eq!(transformer.transform(&vec![None, None], &codec, &codec, b'N'), Err(TransformError::NoSequencePresent));
    let broken = vec![Some(codec.compress_bytes(b"ACGT").unwrap()), Some(vec![1, 2, 3])];
    assert_eq!(transformer.transform(&broken, &codec, &codec, b'N'), Err(TransformError::Decompression));
    let short = vec![Some(codec.compress_bytes(b"ACGT").unwrap()), Some(codec.compress_bytes(b"AC").unwrap())];
    assert_eq!(transformer.transform(&short, &codec, &codec, b'N'), Err(TransformError::ShortSequence));
    assert_eq!(transformer.number_of_chunks(9), 3);
    assert_eq!(transformer.number_of_chunks(8), 2);
}

#[test]
fn codec_round_trip() {
    let plain = SeqCompressor::new();
    let data = b"ACGTACGTNNNN----ACGT".to_vec();
    let frame = plain.compress_bytes(&data).unwrap();
    assert_ne!(frame, data);
    assert_eq!(plain.decompress(&frame).unwrap(), data);
    let seeded = SeqCompressor::with_dict(b"ACGTACGTACGTACGT");
    let frame = seeded.compress_bytes(&data).unwrap();
    assert_eq!(seeded.decompress(&frame).unwrap(), data);
    assert_eq!(seeded.clone().decompress(&frame).unwrap(), data);
}

#[test]
fn decompress_rejects_garbage() {
    let codec = SeqCompressor::new();
    assert_eq!(codec.decompress(&[0u8; 20]), None);
    let mut huge = vec![0x28, 0xB5, 0x2F, 0xFD, 0xE0];
    huge.extend_from_slice(&[0xFF; 8]);
    huge.extend_from_slice(&[0; 7]);
    assert_eq!(codec.decompress(&huge), None);
}
