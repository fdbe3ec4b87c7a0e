use png_term::media_type::{firstMediaType, isPNG, isPngMediaType};

const PNG_START: [u8; 16] = [0x89, 0x50, 0x4E, 0x47, 0x0D, 0x0A, 0x1A, 0x0A, 0, 0, 0, 13, b'I', b'H', b'D', b'R'];

#[test]
fn png_signature_is_detected() {
    let bytes = PNG_START.to_vec();
    assert_eq!(firstMediaType(&bytes), Some("image/png".to_string()));
    assert_eq!(isPNG(&bytes), Some(true));
}

#[test]
fn other_files_are_not_png() {
    let gif = b"GIF89a\x01\x00\x01\x00\x00\x00\x00".to_vec();
    assert_eq!(isPNG(&gif), Some(false));
    let text = b"just some text".to_vec();
    assert_eq!(isPNG(&text), Some(false));
}

#[test]
fn png_media_type_is_recognised() {
    assert!(isPngMediaType(&"image/png".to_string()));
    assert!(!isPngMediaType(&"image/gif".to_string()));
    assert!(!isPngMediaType(&"image/png ".to_string()));
}
