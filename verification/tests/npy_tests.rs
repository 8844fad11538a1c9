use vcore::npy::{parse_npy_header, NpyError};

const NPY_MAGIC: &[u8] = b"\x93NUMPY";

/// Build a minimal valid .npy v1.0 byte buffer for a (rows x cols) float32 array.
fn make_npy(rows: usize, cols: usize, fill: f32) -> Vec<u8> {
    let header_dict = format!(
        "{{'descr': '<f4', 'fortran_order': False, 'shape': ({}, {}), }}",
        rows, cols
    );
    // Pad header to a multiple of 64 bytes
    let mut hdr = header_dict.into_bytes();
    hdr.push(b'\n');
    while (10 + hdr.len()) % 64 != 0 {
        hdr.insert(hdr.len() - 1, b' ');
    }
    let hdr_len = hdr.len() as u16;

    let mut buf = Vec::new();
    buf.extend_from_slice(NPY_MAGIC);
    buf.push(1); // major
    buf.push(0); // minor
    buf.extend_from_slice(&hdr_len.to_le_bytes());
    buf.extend_from_slice(&hdr);

    let val = fill.to_le_bytes();
    for _ in 0..rows * cols {
        buf.extend_from_slice(&val);
    }
    buf
}

#[test]
fn test_parse_valid_header() {
    let npy = make_npy(10, 4, 0.5);
    let (header, offset) = parse_npy_header(&npy).unwrap();
    assert_eq!(header.rows, 10);
    assert_eq!(header.cols, 4);
    assert!(!header.is_fortran_order);
    assert!(header.dtype_is_float32);
    assert!(offset > 10);
}

#[test]
fn test_bad_magic() {
    let bad = b"NOT_NPY\x01\x00\x00\x00".to_vec();
    assert!(matches!(parse_npy_header(&bad), Err(NpyError::BadMagic)));
}

#[test]
fn test_parse_1d_shape_fails() {
    // Construct an npy with shape (10,) — should fail WrongShape
    let header_dict = "{'descr': '<f4', 'fortran_order': False, 'shape': (10,), }\n";
    let hdr = header_dict.as_bytes();
    let hdr_len = hdr.len() as u16;
    let mut buf = Vec::new();
    buf.extend_from_slice(NPY_MAGIC);
    buf.push(1);
    buf.push(0);
    buf.extend_from_slice(&hdr_len.to_le_bytes());
    buf.extend_from_slice(hdr);
    assert!(matches!(parse_npy_header(&buf), Err(NpyError::WrongShape)));
}

#[test]
fn test_unsupported_version() {
    let mut buf = Vec::new();
    buf.extend_from_slice(NPY_MAGIC);
    buf.push(3);
    buf.push(1);
    buf.extend_from_slice(&[0u8, 0]);
    match parse_npy_header(&buf) {
        Err(NpyError::UnsupportedVersion(maj, min)) => {
            assert_eq!((maj, min), (3, 1));
        }
        other => panic!("expected UnsupportedVersion, got {}", kind_of(&other)),
    }
}

#[test]
fn test_unsupported_dtype() {
    let header_dict = "{'descr': '<f8', 'fortran_order': False, 'shape': (3, 2), }\n";
    let hdr = header_dict.as_bytes();
    let hdr_len = hdr.len() as u16;
    let mut buf = Vec::new();
    buf.extend_from_slice(NPY_MAGIC);
    buf.push(1);
    buf.push(0);
    buf.extend_from_slice(&hdr_len.to_le_bytes());
    buf.extend_from_slice(hdr);
    match parse_npy_header(&buf) {
        Err(NpyError::UnsupportedDtype(s)) => {
            assert!(s.starts_with("<f8"));
        }
        other => panic!("expected UnsupportedDtype, got {}", kind_of(&other)),
    }
}

#[test]
fn test_truncated_header_fails() {
    let mut buf = Vec::new();
    buf.extend_from_slice(NPY_MAGIC);
    buf.push(1);
    buf.push(0);
    buf.extend_from_slice(&200u16.to_le_bytes());
    buf.extend_from_slice(b"too short");
    match parse_npy_header(&buf) {
        Err(NpyError::ParseError(s)) => {
            assert_eq!(s, "file too short for declared header");
        }
        other => panic!("expected ParseError, got {}", kind_of(&other)),
    }
}

#[test]
fn test_non_utf8_header_fails() {
    let hdr: Vec<u8> = vec![0xFF, 0xFE, 0x80, 0x80];
    let hdr_len = hdr.len() as u16;
    let mut buf = Vec::new();
    buf.extend_from_slice(NPY_MAGIC);
    buf.push(1);
    buf.push(0);
    buf.extend_from_slice(&hdr_len.to_le_bytes());
    buf.extend_from_slice(&hdr);
    match parse_npy_header(&buf) {
        Err(NpyError::ParseError(s)) => {
            assert_eq!(s, "header is not valid UTF-8");
        }
        other => panic!("expected ParseError, got {}", kind_of(&other)),
    }
}

#[test]
fn test_fortran_order_flag() {
    let header_dict = "{'descr': '<f4', 'fortran_order': True, 'shape': (2, 2), }\n";
    let hdr = header_dict.as_bytes();
    let hdr_len = hdr.len() as u16;
    let mut buf = Vec::new();
    buf.extend_from_slice(NPY_MAGIC);
    buf.push(1);
    buf.push(0);
    buf.extend_from_slice(&hdr_len.to_le_bytes());
    buf.extend_from_slice(hdr);
    let (header, _) = parse_npy_header(&buf).unwrap();
    assert!(header.is_fortran_order);
}

#[test]
fn test_npy_error_messages() {
    assert_eq!(NpyError::BadMagic.message(), "Not a .npy file (bad magic bytes)");
    assert_eq!(NpyError::UnsupportedVersion(3, 1).message(), "Unsupported .npy version 3.1");
    assert_eq!(NpyError::WrongShape.message(), "Array must be 2-D (N, D)");
}

#[test]
fn test_decode_rows_skips_nonfinite() {
    // rows 0 and 2 are finite; row 1 holds an infinity and is dropped
    let mut data = Vec::new();
    for v in [1.0f32, 2.0] {
        data.extend_from_slice(&v.to_le_bytes());
    }
    for v in [3.0f32, f32::INFINITY] {
        data.extend_from_slice(&v.to_le_bytes());
    }
    for v in [5.0f32, 6.0] {
        data.extend_from_slice(&v.to_le_bytes());
    }
    let rows = vcore::npy::decode_rows(&data, 3, 2);
    assert_eq!(rows.len(), 2);
    assert_eq!(rows[0].0, 0);
    assert_eq!(rows[0].1, vec![1.0f32.to_bits(), 2.0f32.to_bits()]);
    assert_eq!(rows[1].0, 2);
    assert_eq!(rows[1].1, vec![5.0f32.to_bits(), 6.0f32.to_bits()]);
}

#[test]
fn test_decode_rows_skips_nan() {
    let mut data = Vec::new();
    for v in [f32::NAN, 1.0] {
        data.extend_from_slice(&v.to_le_bytes());
    }
    let rows = vcore::npy::decode_rows(&data, 1, 2);
    assert!(rows.is_empty());
}

fn kind_of(r: &Result<(vcore::npy::NpyHeader, usize), NpyError>) -> String {
    match r {
        Ok(_) => "Ok".to_string(),
        Err(e) => e.message(),
    }
}
