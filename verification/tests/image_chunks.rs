use kuna_sleigh::loadimage_xml::{chunk_content_text, decode_chunk_content, ImageElement, ImageError, LoadImageXml};
use kuna_sleigh::space::{AddrSpace, SpaceType};

/// A processor space `ram` (index 1) with addresses of `addr_size` bytes.
fn ram(addr_size: u32) -> AddrSpace {
    AddrSpace::new(1, SpaceType::Processor, false, addr_size, 1)
}

fn chunk(space: AddrSpace, offset: u64, readonly: bool, text: &str) -> ImageElement {
    ImageElement::ByteChunk { space, offset, readonly, content: text.as_bytes().to_vec() }
}

fn symbol(space: AddrSpace, offset: u64, name: &str) -> ImageElement {
    ImageElement::Symbol { space, offset, name: name.as_bytes().to_vec() }
}

fn image(els: &[ImageElement]) -> LoadImageXml {
    let mut img = LoadImageXml::new(b"inline", b"binaryimage", Some(b"test")).unwrap();
    img.open(els).unwrap();
    img
}

fn load(img: &LoadImageXml, n: usize, space: AddrSpace, offset: u64) -> Result<Vec<u8>, ImageError> {
    let mut buf = vec![0u8; n];
    img.load_fill(&mut buf, space, offset).map(|_| buf)
}

fn hex(s: &str) -> Vec<u8> {
    (0..s.len() / 2).map(|i| u8::from_str_radix(&s[2 * i..2 * i + 2], 16).unwrap()).collect()
}

#[test]
fn pad_erases_redundant_chunk() {
    let r = ram(4);
    let img = image(&[
        chunk(r, 0x100, false, "\n0102030405060708090a0b0c0d0e0f10\n"),
        chunk(r, 0x108, false, "\neeee\n"),
    ]);
    // The contained chunk at 0x108 was erased: bytes come from the big
    // chunk, not the "eeee" payload
    assert_eq!(load(&img, 4, r, 0x108).unwrap(), hex("090a0b0c"));
}

#[test]
fn pad_clamps_to_next_chunk_and_space_end() {
    let r = ram(2);
    let img = image(&[
        chunk(r, 0x10, false, "\naabb\n"),
        chunk(r, 0x18, false, "\nccdd\n"),
        chunk(r, 0xfff0, false, "\n0011223344556677\n"),
    ]);
    // Gap [0x12,0x18) is fully padded: a straddling read succeeds
    assert_eq!(load(&img, 10, r, 0x10).unwrap(), hex("aabb000000000000ccdd"));
    // The last chunk pads only to the end of the space, so 0xffff reads 0
    // and the wrap around to 0x0000 is unmapped
    assert_eq!(load(&img, 1, r, 0xffff).unwrap(), vec![0]);
    let err = load(&img, 1, r, 0x0).unwrap_err();
    assert!(matches!(err, ImageError::NotMapped(_)));
}

#[test]
fn constructor_and_open_errors() {
    // Root element is not <binaryimage>
    let err = LoadImageXml::new(b"file.xml", b"other", Some(b"x")).unwrap_err();
    assert_eq!(err, ImageError::MissingBinaryImage);
    assert_eq!(err.explain(), "Missing binaryimage tag");

    // Missing arch attribute
    let err = LoadImageXml::new(b"file.xml", b"binaryimage", None).unwrap_err();
    assert_eq!(err, ImageError::MissingArch);
    assert_eq!(err.explain(), "Unknown attribute: arch");

    // Unknown child tag inside <binaryimage>
    let mut img = LoadImageXml::new(b"file.xml", b"binaryimage", Some(b"x")).unwrap();
    let err = img.open(&[ImageElement::Unknown]).unwrap_err();
    assert_eq!(err, ImageError::UnknownTag);
    assert_eq!(err.explain(), "Unknown LoadImageXml tag");
}

#[test]
fn encode_round_trip() {
    let r = ram(4);
    let mut img = LoadImageXml::new(b"inline", b"binaryimage", Some(b"test:arch")).unwrap();
    img.open(&[
        chunk(r, 0x100, true, "\n000102030405060708090a0b0c0d0e0f10111213\n1415\n"),
        symbol(r, 0x100, "main"),
        symbol(r, 0x110, "helper"),
    ])
    .unwrap();

    let els = img.encode();
    let mut img2 = LoadImageXml::new(b"roundtrip", b"binaryimage", Some(&img.get_arch_type())).unwrap();
    img2.open(&els).unwrap();

    assert_eq!(img2.get_arch_type(), b"test:arch".to_vec());
    let a = load(&img, 22, r, 0x100).unwrap();
    let b = load(&img2, 22, r, 0x100).unwrap();
    assert_eq!(a, b);
    assert_eq!(b, hex("000102030405060708090a0b0c0d0e0f101112131415"));

    img2.open_symbols();
    let s1 = img2.get_next_symbol().unwrap();
    assert_eq!((s1.offset, s1.data.clone()), (0x100, b"main".to_vec()));
    let s2 = img2.get_next_symbol().unwrap();
    assert_eq!((s2.offset, s2.data.clone()), (0x110, b"helper".to_vec()));
    assert!(img2.get_next_symbol().is_none());

    // readonly survives the round trip on the original chunk extent
    let ranges: Vec<(u64, u64)> = img2.get_readonly().iter().map(|(_, a, b)| (*a, *b)).collect();
    assert_eq!(ranges, vec![(0x100, 0x115)]);
}

#[test]
fn adjust_vma_moves_chunks_and_symbols_but_not_readonlyset() {
    let r = ram(4);
    let mut img = image(&[chunk(r, 0x100, true, "\na1b2c3d4\n"), symbol(r, 0x102, "sym")]);

    img.adjust_vma(0x10);
    assert_eq!(load(&img, 4, r, 0x110).unwrap(), hex("a1b2c3d4"));
    let err = load(&img, 4, r, 0x100).unwrap_err();
    assert!(matches!(err, ImageError::NotMapped(_)));

    img.open_symbols();
    let s = img.get_next_symbol().unwrap();
    assert_eq!(s.offset, 0x112);

    // the read-only set still holds 0x100, which no longer matches any
    // chunk: nothing is reported
    assert_eq!(img.get_readonly().len(), 0);
}

#[test]
fn clear_empties_caches() {
    let r = ram(4);
    let mut img = image(&[chunk(r, 0x100, true, "\naa\n")]);
    img.clear();
    assert_eq!(img.get_arch_type(), Vec::<u8>::new());
    let err = load(&img, 1, r, 0x100).unwrap_err();
    assert!(matches!(err, ImageError::NotMapped(_)));
    img.open_symbols();
    assert!(img.get_next_symbol().is_none());
}

#[test]
fn load_reports_the_first_unmapped_address() {
    let r = ram(4);
    let img = image(&[chunk(r, 0x1000, false, "\n11223344\n")]);
    // a chunk of 4 bytes followed by 512 bytes of pad
    assert_eq!(load(&img, 6, r, 0x1002).unwrap(), hex("334400000000"));
    match load(&img, 0x300, r, 0x1000).unwrap_err() {
        ImageError::NotMapped(a) => assert_eq!(a.offset, 0x1000 + 4 + 512),
        other => panic!("unexpected {:?}", other),
    }
    match load(&img, 4, r, 0x10).unwrap_err() {
        ImageError::NotMapped(a) => assert_eq!(a.offset, 0x10),
        other => panic!("unexpected {:?}", other),
    }
    // reading nothing always succeeds
    assert_eq!(load(&img, 0, r, 0x10).unwrap(), Vec::<u8>::new());
    assert_eq!(img.get_file_name(), b"inline");
}

#[test]
fn chunk_text_round_trip() {
    let bytes: Vec<u8> = (0u8..45).collect();
    let text = chunk_content_text(&bytes);
    let s = String::from_utf8(text.clone()).unwrap();
    assert!(s.starts_with("\n000102"));
    // a line break after every twentieth byte, and at the end
    assert_eq!(s.matches('\n').count(), 1 + 2 + 1);
    assert_eq!(decode_chunk_content(&text), bytes);
    assert_eq!(String::from_utf8(chunk_content_text(&[0xab, 0xff])).unwrap(), "\nabff\n");
}

#[test]
fn later_chunk_at_same_address_replaces_bytes() {
    let r = ram(4);
    let img = image(&[chunk(r, 0x40, false, "\n0102\n"), chunk(r, 0x40, false, "\n0304\n")]);
    assert_eq!(load(&img, 2, r, 0x40).unwrap(), hex("0304"));
}
