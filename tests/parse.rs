use bluez_handle::path::ParseError;
use bluez_handle::{BlueZHandle, BlueZType};

#[test]
fn test_parse_descriptor_handle() {
    let handle: BlueZHandle =
        "/org/bluez/hci0/dev_01_02_03_04_05_06/service0025/char0026/descriptor0027"
            .parse()
            .unwrap();
    assert_eq!(
        handle,
        BlueZHandle {
            typ: BlueZType::Descriptor,
            handle: 0x27_u16,
            parent: 0x26_u16
        }
    );
}

#[test]
fn test_parse_characteristic_handle() {
    let handle: BlueZHandle = "/org/bluez/hci0/dev_01_02_03_04_05_06/service0025/char0026"
        .parse()
        .unwrap();
    assert_eq!(
        handle,
        BlueZHandle {
            typ: BlueZType::Characteristic,
            handle: 0x26_u16,
            parent: 0x25_u16
        }
    );
}

#[test]
fn test_parse_service_handle() {
    let handle: BlueZHandle = "/org/bluez/hci0/dev_01_02_03_04_05_06/service0025"
        .parse()
        .unwrap();
    assert_eq!(
        handle,
        BlueZHandle {
            typ: BlueZType::Service,
            handle: 0x25_u16,
            parent: 0_u16
        }
    );
}

#[test]
fn parse_without_marker_fails() {
    assert_eq!(
        BlueZHandle::parse("/org/bluez/hci0/dev_01_02_03_04_05_06"),
        Err(ParseError::NoMarkerFound)
    );
    assert_eq!(BlueZHandle::parse(""), Err(ParseError::NoMarkerFound));
}

#[test]
fn parse_reads_all_four_digits() {
    assert_eq!(
        BlueZHandle::parse("/org/bluez/hci0/dev_01/service1234/char5678/descriptor9abc"),
        Ok(BlueZHandle {
            typ: BlueZType::Descriptor,
            parent: 0x5678,
            handle: 0x9abc
        })
    );
    assert_eq!(
        BlueZHandle::parse("/org/bluez/hci0/dev_01/service0A1F/char0B2E"),
        Ok(BlueZHandle {
            typ: BlueZType::Characteristic,
            parent: 0x0a1f,
            handle: 0x0b2e
        })
    );
}

#[test]
fn parse_largest_field_with_digit_lead() {
    assert_eq!(
        BlueZHandle::parse("/org/bluez/hci0/dev_01/service9fff"),
        Ok(BlueZHandle {
            typ: BlueZType::Service,
            parent: 0,
            handle: 0x9fff
        })
    );
}

#[test]
fn parse_field_led_by_letter() {
    assert_eq!(
        BlueZHandle::parse("/org/bluez/hci0/dev_01/servicea000"),
        Ok(BlueZHandle {
            typ: BlueZType::Service,
            parent: 0,
            handle: 0xa000
        })
    );
    let handle: BlueZHandle = "/org/bluez/hci0/dev_01_02_03_04_05_06/serviceabcd"
        .parse()
        .unwrap();
    assert_eq!(
        handle,
        BlueZHandle {
            typ: BlueZType::Service,
            parent: 0,
            handle: 0xabcd
        }
    );
    assert_eq!(
        BlueZHandle::parse("/org/bluez/hci0/dev_01/servicefffe/charffff/descriptorbeef"),
        Ok(BlueZHandle {
            typ: BlueZType::Descriptor,
            parent: 0xffff,
            handle: 0xbeef
        })
    );
    assert_eq!(
        BlueZHandle::parse("/org/bluez/hci0/dev_01/serviceC0DE/charABCD"),
        Ok(BlueZHandle {
            typ: BlueZType::Characteristic,
            parent: 0xc0de,
            handle: 0xabcd
        })
    );
}

#[test]
fn parse_wider_field_fails() {
    assert_eq!(
        BlueZHandle::parse("/org/bluez/hci0/dev_01/service00251"),
        Err(ParseError::MalformedHexField)
    );
    assert_eq!(
        BlueZHandle::parse("/org/bluez/hci0/dev_01/service0025/char00261"),
        Err(ParseError::MalformedHexField)
    );
    // The parent's field runs on into the digit before `char`.
    assert_eq!(
        BlueZHandle::parse("/org/bluez/hci0/dev_01/service00250char0026"),
        Err(ParseError::MalformedHexField)
    );
}

#[test]
fn parse_malformed_fields_fail() {
    assert_eq!(
        BlueZHandle::parse("/org/bluez/hci0/dev_01/service00zz"),
        Err(ParseError::MalformedHexField)
    );
    assert_eq!(
        BlueZHandle::parse("/org/bluez/hci0/dev_01/service002"),
        Err(ParseError::MalformedHexField)
    );
    assert_eq!(
        BlueZHandle::parse("/org/bluez/hci0/dev_01/service0025/char0026/descriptor+027"),
        Err(ParseError::MalformedHexField)
    );
    assert_eq!(
        BlueZHandle::parse("/org/bluez/hci0/dev_01/service0025/char00x6"),
        Err(ParseError::MalformedHexField)
    );
    assert_eq!(
        BlueZHandle::parse("/org/bluez/hci0/dev_01/service"),
        Err(ParseError::MalformedHexField)
    );
    assert_eq!(
        BlueZHandle::parse("/org/bluez/hci0/dev_01/service/0025"),
        Err(ParseError::MalformedHexField)
    );
}

#[test]
fn parse_parent_field_must_be_there() {
    // Nothing stands five bytes before a marker at the very start.
    assert_eq!(
        BlueZHandle::parse("descriptor0027"),
        Err(ParseError::MalformedHexField)
    );
    // The five bytes before `char` are not a handle field.
    assert_eq!(
        BlueZHandle::parse("/org/bluez/hci0/dev_01/char0026"),
        Err(ParseError::MalformedHexField)
    );
}

#[test]
fn parse_prefers_descriptor_over_char_over_service() {
    assert_eq!(
        BlueZHandle::parse("/service0001/char0002/descriptor0003/char0004"),
        Ok(BlueZHandle {
            typ: BlueZType::Descriptor,
            parent: 0x0002,
            handle: 0x0003
        })
    );
    assert_eq!(
        BlueZHandle::parse("/service0001/char0002/service0005"),
        Ok(BlueZHandle {
            typ: BlueZType::Characteristic,
            parent: 0x0001,
            handle: 0x0002
        })
    );
}

#[test]
fn parse_non_ascii_path() {
    assert_eq!(
        BlueZHandle::parse("/org/bluez/h\u{e9}ci0/service0025"),
        Ok(BlueZHandle {
            typ: BlueZType::Service,
            parent: 0,
            handle: 0x25
        })
    );
}
