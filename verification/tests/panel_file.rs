use circuit_lab::panel_file::PanelFile;

#[test]
fn panel_file_encodes_tag_length_and_data() {
    let pf = PanelFile { original_length: 0x0102, buffer: vec![9, 8, 7] };
    let bytes = pf.encode();
    assert_eq!(bytes, vec![b'P', b'F', 2, 1, 0, 0, 0, 0, 0, 0, 9, 8, 7]);
    let back = PanelFile::decode(&bytes).unwrap();
    assert_eq!(back.original_length, 0x0102);
    assert_eq!(back.buffer, vec![9, 8, 7]);
}

#[test]
fn panel_file_needs_its_tag() {
    assert!(PanelFile::decode(b"XF12345678").is_none());
    assert!(PanelFile::decode(b"P").is_none());
    let short = PanelFile::decode(b"PF\x05").unwrap();
    assert_eq!(short.original_length, 5);
    assert!(short.buffer.is_empty());
}
