//! Bytes as text, and what addresses ask for.

use weland::media::{data_uri, parse_id, requested_asset, requested_cover, voice_asset, voice_bytes};

#[test]
fn bytes_come_back_from_their_text() {
    for data in [&b""[..], b"f", b"fo", b"foo", b"foob", b"\x00\xff\xfe\x10"] {
        let asset = voice_asset(&data.to_vec());
        assert_eq!(asset.mime_type, "audio/ogg; codecs=opus");
        assert_eq!(voice_bytes(&asset.data_base64), Ok(data.to_vec()));
    }
    assert_eq!(voice_asset(&b"foob".to_vec()).data_base64, "Zm9vYg==");
    assert_eq!(voice_asset(&vec![0xfb, 0xff]).data_base64, "+/8=");
}

#[test]
fn text_that_encodes_nothing_is_refused() {
    for bad in ["Zm9vYg=", "Zm9vYh==", "Zm9v YmE=", "Zg", "Zg==Zg=="] {
        match voice_bytes(bad) {
            Err(message) => assert!(message.starts_with("Failed to decode recorded audio: ")),
            Ok(_) => panic!("{bad} encodes nothing"),
        }
    }
}

#[test]
fn covers_become_addresses() {
    assert_eq!(data_uri("image/png", &b"foo".to_vec()), "data:image/png;base64,Zm9v");
}

#[test]
fn ids_are_whole_numbers_of_64_bits() {
    assert_eq!(parse_id("42"), Some(42));
    assert_eq!(parse_id("+7"), Some(7));
    assert_eq!(parse_id("-9223372036854775808"), Some(i64::MIN));
    assert_eq!(parse_id("9223372036854775807"), Some(i64::MAX));
    for bad in ["", "-", "9223372036854775808", "-9223372036854775809", "1a", " 1", "99999999999999999999999"] {
        assert_eq!(parse_id(bad), None, "{bad}");
    }
}

#[test]
fn addresses_name_assets_and_books() {
    assert_eq!(requested_asset("/12"), Some(12));
    assert_eq!(requested_asset("//12"), Some(12));
    assert_eq!(requested_asset("/12/3"), None);
    assert_eq!(requested_cover("/%2Fhome%2Fann%2FThe%20Odyssey.wld"), "/home/ann/The Odyssey.wld");
    assert_eq!(requested_cover("plain.wld"), "plain.wld");
}
