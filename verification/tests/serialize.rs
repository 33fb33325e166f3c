use patchelfdd::serialize::{AnyEndian, ArchLong, ArchSerializer, Class, Error, SerializeIntoArchValue};

#[test]
fn test_le32() -> Result<(), Error> {
    let serializer = ArchSerializer::new(Class::ELF32, AnyEndian::Little);

    assert_eq!(
        serializer.bytes_from_signed_long(-1234)?.bytes(),
        [46, 251, 255, 255]
    );

    assert_eq!(
        serializer.bytes_from_unsigned_long(1234)?.bytes(),
        [210, 4, 0, 0]
    );

    Ok(())
}

#[test]
fn test_be32() -> Result<(), Error> {
    let serializer = ArchSerializer::new(Class::ELF32, AnyEndian::Big);

    assert_eq!(
        serializer.bytes_from_signed_long(-1234)?.bytes(),
        [255, 255, 251, 46]
    );

    assert_eq!(
        serializer.bytes_from_unsigned_long(1234)?.bytes(),
        [0, 0, 4, 210]
    );

    Ok(())
}

#[test]
fn test_le64() -> Result<(), Error> {
    let serializer = ArchSerializer::new(Class::ELF64, AnyEndian::Little);

    assert_eq!(
        serializer.bytes_from_signed_long(-0x133708)?.bytes(),
        [248, 200, 236, 255, 255, 255, 255, 255]
    );

    assert_eq!(
        serializer.bytes_from_unsigned_long(0x133708)?.bytes(),
        [8, 55, 19, 0, 0, 0, 0, 0]
    );

    Ok(())
}

#[test]
fn test_be64() -> Result<(), Error> {
    let serializer = ArchSerializer::new(Class::ELF64, AnyEndian::Big);

    assert_eq!(
        serializer.bytes_from_signed_long(-0x133708)?.bytes(),
        [255, 255, 255, 255, 255, 236, 200, 248]
    );

    assert_eq!(
        serializer.bytes_from_unsigned_long(0x133708)?.bytes(),
        [0, 0, 0, 0, 0, 19, 55, 8]
    );

    Ok(())
}

#[test]
fn known_vectors() {
    let le32 = ArchSerializer::new(Class::ELF32, AnyEndian::Little);
    let be32 = ArchSerializer::new(Class::ELF32, AnyEndian::Big);
    let le64 = ArchSerializer::new(Class::ELF64, AnyEndian::Little);
    let be64 = ArchSerializer::new(Class::ELF64, AnyEndian::Big);
    assert_eq!(le32.bytes_from_signed_long(-1234).unwrap().bytes(), [0x2e, 0xfb, 0xff, 0xff]);
    assert_eq!(be32.bytes_from_signed_long(-1234).unwrap().bytes(), [0xff, 0xff, 0xfb, 0x2e]);
    assert_eq!(
        le64.bytes_from_unsigned_long(0x133708).unwrap().bytes(),
        [0x08, 0x37, 0x13, 0, 0, 0, 0, 0]
    );
    assert_eq!(
        be64.bytes_from_unsigned_long(0x133708).unwrap().bytes(),
        [0, 0, 0, 0, 0, 0x13, 0x37, 0x08]
    );
}

#[test]
fn word_has_the_width_of_the_class() {
    for endian in [AnyEndian::Little, AnyEndian::Big] {
        let narrow = ArchSerializer::new(Class::ELF32, endian);
        let wide = ArchSerializer::new(Class::ELF64, endian);
        for value in [0i64, 1, -1, 29, i32::MAX as i64, i32::MIN as i64] {
            let word = narrow.bytes_from_signed_long(value).unwrap();
            assert_eq!(word.len(), 4);
            assert_eq!(word.bytes().len(), 4);
            assert!(matches!(word, ArchLong::Elf32(_)));
            let word = wide.bytes_from_signed_long(value).unwrap();
            assert_eq!(word.len(), 8);
            assert_eq!(word.bytes().len(), 8);
            assert!(matches!(word, ArchLong::Elf64(_)));
        }
        for value in [0u64, 1, 29, u32::MAX as u64] {
            assert_eq!(narrow.bytes_from_unsigned_long(value).unwrap().len(), 4);
            assert_eq!(wide.bytes_from_unsigned_long(value).unwrap().len(), 8);
        }
    }
}

#[test]
fn encoding_agrees_with_the_native_byte_orders() {
    let le32 = ArchSerializer::new(Class::ELF32, AnyEndian::Little);
    let be32 = ArchSerializer::new(Class::ELF32, AnyEndian::Big);
    let le64 = ArchSerializer::new(Class::ELF64, AnyEndian::Little);
    let be64 = ArchSerializer::new(Class::ELF64, AnyEndian::Big);
    for value in [0i64, 1, -1, 255, 256, -256, 0x1234_5678, -0x1234_5678, i32::MAX as i64, i32::MIN as i64] {
        assert_eq!(le32.bytes_from_signed_long(value).unwrap().bytes(), (value as i32).to_le_bytes());
        assert_eq!(be32.bytes_from_signed_long(value).unwrap().bytes(), (value as i32).to_be_bytes());
    }
    for value in [0i64, 1, -1, i64::MAX, i64::MIN, 0x0102_0304_0506_0708, -0x0102_0304_0506_0708] {
        assert_eq!(le64.bytes_from_signed_long(value).unwrap().bytes(), value.to_le_bytes());
        assert_eq!(be64.bytes_from_signed_long(value).unwrap().bytes(), value.to_be_bytes());
    }
    for value in [0u64, 1, 255, 256, 0xdead_beef, u32::MAX as u64] {
        assert_eq!(le32.bytes_from_unsigned_long(value).unwrap().bytes(), (value as u32).to_le_bytes());
        assert_eq!(be32.bytes_from_unsigned_long(value).unwrap().bytes(), (value as u32).to_be_bytes());
    }
    for value in [0u64, 1, u64::MAX, 0x0102_0304_0506_0708, 1 << 63] {
        assert_eq!(le64.bytes_from_unsigned_long(value).unwrap().bytes(), value.to_le_bytes());
        assert_eq!(be64.bytes_from_unsigned_long(value).unwrap().bytes(), value.to_be_bytes());
    }
}

#[test]
fn decoding_gives_the_value_back() {
    let le32 = ArchSerializer::new(Class::ELF32, AnyEndian::Little);
    let be64 = ArchSerializer::new(Class::ELF64, AnyEndian::Big);
    for value in [-1234i64, 0, 29, i32::MIN as i64, i32::MAX as i64] {
        let word = le32.bytes_from_signed_long(value).unwrap();
        let mut bytes = [0u8; 4];
        bytes.copy_from_slice(word.bytes());
        assert_eq!(i32::from_le_bytes(bytes) as i64, value);
    }
    for value in [0u64, 0x133708, u64::MAX] {
        let word = be64.bytes_from_unsigned_long(value).unwrap();
        let mut bytes = [0u8; 8];
        bytes.copy_from_slice(word.bytes());
        assert_eq!(u64::from_be_bytes(bytes), value);
    }
}

#[test]
fn narrowing_that_loses_information_fails() {
    for endian in [AnyEndian::Little, AnyEndian::Big] {
        let narrow = ArchSerializer::new(Class::ELF32, endian);
        assert!(matches!(
            narrow.bytes_from_signed_long(i32::MAX as i64 + 1),
            Err(Error::IntConversion { .. })
        ));
        assert!(matches!(
            narrow.bytes_from_signed_long(i32::MIN as i64 - 1),
            Err(Error::IntConversion { .. })
        ));
        assert!(matches!(
            narrow.bytes_from_unsigned_long(u32::MAX as u64 + 1),
            Err(Error::IntConversion { .. })
        ));
        assert!(narrow.bytes_from_signed_long(i32::MAX as i64).is_ok());
        assert!(narrow.bytes_from_signed_long(i32::MIN as i64).is_ok());
        assert!(narrow.bytes_from_unsigned_long(u32::MAX as u64).is_ok());
        let wide = ArchSerializer::new(Class::ELF64, endian);
        assert!(wide.bytes_from_signed_long(i64::MIN).is_ok());
        assert!(wide.bytes_from_unsigned_long(u64::MAX).is_ok());
    }
}

#[test]
fn integers_serialize_into_words_of_their_width() {
    assert_eq!(0x0403_0201u32.to_le_arch().bytes(), [1, 2, 3, 4]);
    assert_eq!(0x0403_0201u32.to_be_arch().bytes(), [4, 3, 2, 1]);
    assert_eq!((-2i32).to_le_arch().bytes(), [0xfe, 0xff, 0xff, 0xff]);
    assert_eq!((-2i32).to_be_arch().bytes(), [0xff, 0xff, 0xff, 0xfe]);
    assert_eq!(0x0807_0605_0403_0201u64.to_le_arch().bytes(), [1, 2, 3, 4, 5, 6, 7, 8]);
    assert_eq!(0x0807_0605_0403_0201u64.to_be_arch().bytes(), [8, 7, 6, 5, 4, 3, 2, 1]);
    assert_eq!((-2i64).to_le_arch().bytes(), [0xfe, 0xff, 0xff, 0xff, 0xff, 0xff, 0xff, 0xff]);
    assert_eq!((-2i64).to_be_arch().bytes(), [0xff, 0xff, 0xff, 0xff, 0xff, 0xff, 0xff, 0xfe]);
    assert_eq!(7u32.to_le_arch().len(), 4);
    assert_eq!(7i64.to_be_arch().len(), 8);
}
