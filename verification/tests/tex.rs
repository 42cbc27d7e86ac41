use dungeon_solver::tex::{
    parse_array_tex, parse_tex_header, TexEntry, TexError, TexHeader, ARRAY_ENTRY_HEAD,
    TEX_PAYLOAD_START,
};

/// A single texture file with the given head and payload.
fn tex_file(width: u32, height: u32, format: u32, payload: &[u8]) -> Vec<u8> {
    let mut bytes = vec![0xeeu8; 8];
    bytes.extend(width.to_le_bytes());
    bytes.extend(height.to_le_bytes());
    bytes.extend(format.to_le_bytes());
    bytes.extend([0xdd; 52]);
    bytes.extend((payload.len() as u32).to_le_bytes());
    bytes.extend(payload);
    bytes
}

/// One texture of an array file.
fn array_entry(width: u32, height: u32, payload: &[u8]) -> Vec<u8> {
    let mut bytes = Vec::new();
    bytes.extend(width.to_le_bytes());
    bytes.extend(height.to_le_bytes());
    bytes.extend([0xcc; 56]);
    bytes.extend((payload.len() as u32).to_le_bytes());
    bytes.extend(payload);
    bytes
}

#[test]
fn head_of_a_texture_file() {
    assert_eq!(TEX_PAYLOAD_START, 76);
    let bytes = tex_file(0x0102_0304, 33, 2, &[9, 8, 7]);
    assert_eq!(
        parse_tex_header(&bytes),
        Ok(TexHeader { width: 0x0102_0304, height: 33, format: 2, payload_len: 3 })
    );
    assert_eq!(&bytes[TEX_PAYLOAD_START..TEX_PAYLOAD_START + 3], &[9, 8, 7]);
}

#[test]
fn bytes_behind_the_payload_are_let_be() {
    let mut bytes = tex_file(1, 2, 1, &[5; 10]);
    bytes.extend([1, 2, 3]);
    assert_eq!(
        parse_tex_header(&bytes),
        Ok(TexHeader { width: 1, height: 2, format: 1, payload_len: 10 })
    );
}

#[test]
fn an_empty_payload_is_whole() {
    let bytes = tex_file(0, 0, 7, &[]);
    assert_eq!(bytes.len(), 76);
    assert_eq!(
        parse_tex_header(&bytes),
        Ok(TexHeader { width: 0, height: 0, format: 7, payload_len: 0 })
    );
}

#[test]
fn a_short_texture_file_is_truncated() {
    let bytes = tex_file(4, 4, 2, &[1, 2, 3, 4]);
    assert_eq!(parse_tex_header(&bytes[..79]), Err(TexError::Truncated));
    assert_eq!(parse_tex_header(&bytes[..75]), Err(TexError::Truncated));
    assert_eq!(parse_tex_header(&[]), Err(TexError::Truncated));
}

#[test]
fn textures_of_an_array_file() {
    assert_eq!(ARRAY_ENTRY_HEAD, 68);
    let mut bytes = vec![0u8; 8];
    bytes.extend(array_entry(16, 32, &[1, 2, 3, 4, 5]));
    bytes.extend(array_entry(64, 128, &[]));
    bytes.extend(array_entry(7, 9, &[6; 100]));
    assert_eq!(
        parse_array_tex(&bytes),
        Ok(vec![
            TexEntry { width: 16, height: 32, payload_start: 76, payload_len: 5 },
            TexEntry { width: 64, height: 128, payload_start: 149, payload_len: 0 },
            TexEntry { width: 7, height: 9, payload_start: 217, payload_len: 100 },
        ])
    );
    assert_eq!(bytes.len(), 217 + 100);
}

#[test]
fn an_array_file_without_textures() {
    assert_eq!(parse_array_tex(&[]), Ok(vec![]));
    assert_eq!(parse_array_tex(&[0; 8]), Ok(vec![]));
    assert_eq!(parse_array_tex(&[0; 11]), Ok(vec![]));
}

#[test]
fn up_to_three_bytes_behind_the_last_texture_end_the_file() {
    let mut bytes = vec![0u8; 8];
    bytes.extend(array_entry(1, 1, &[1]));
    bytes.extend([1, 2, 3]);
    assert_eq!(
        parse_array_tex(&bytes),
        Ok(vec![TexEntry { width: 1, height: 1, payload_start: 76, payload_len: 1 }])
    );
}

#[test]
fn an_array_file_that_ends_within_a_texture_is_truncated() {
    let mut bytes = vec![0u8; 8];
    bytes.extend(array_entry(1, 1, &[1, 2]));
    bytes.extend(array_entry(2, 2, &[3, 4, 5, 6]));
    let whole = bytes.len();
    assert!(parse_array_tex(&bytes).is_ok());
    assert_eq!(parse_array_tex(&bytes[..whole - 1]), Err(TexError::Truncated));
    assert_eq!(parse_array_tex(&bytes[..whole - 5]), Err(TexError::Truncated));
    assert_eq!(parse_array_tex(&bytes[..8 + 70 + 4]), Err(TexError::Truncated));
    assert_eq!(parse_array_tex(&bytes[..8 + 69]), Err(TexError::Truncated));
    assert_eq!(parse_array_tex(&bytes[..12]), Err(TexError::Truncated));
}
