use my_bittorrent::bittorent::magnet::{decode_url, Magnet, MagnetError};

#[test]
fn test_parse_magnet() -> Result<(), MagnetError> {
    let magnet = Magnet::parse(String::from(
        "magnet:?xt=urn:btih:ad42ce8109f54c99613ce38f9b4d87e70f24a165&dn=magnet1.gif&tr=http%3A%2F%2Fbittorrent-test-tracker.codecrafters.io%2Fannounce",
    ))?;

    assert_eq!(magnet.file_name, "magnet1.gif");
    assert_eq!(
        magnet.tracker_url,
        "http://bittorrent-test-tracker.codecrafters.io/announce"
    );
    assert_eq!(
        hex::encode(magnet.info_hash),
        "ad42ce8109f54c99613ce38f9b4d87e70f24a165"
    );

    Ok(())
}

#[test]
fn magnet_errors() {
    assert_eq!(
        Magnet::parse(String::from("http://not-a-magnet")).err(),
        Some(MagnetError::NotMagnet)
    );
    assert_eq!(
        Magnet::parse(String::from("magnet:?dn=a&tr=b")).err(),
        Some(MagnetError::MissingHash)
    );
    assert_eq!(
        Magnet::parse(String::from("magnet:?xt=urn:btih:zz&dn=a&tr=b")).err(),
        Some(MagnetError::InvalidHash)
    );
    assert_eq!(
        Magnet::parse(String::from("magnet:?xt=urn:btih:abcd&dn=a&tr=b")).err(),
        Some(MagnetError::WrongHashLength)
    );
}

#[test]
fn decode_url_reads_percent_escapes() {
    assert_eq!(decode_url("a%2Fb%3a").as_deref(), Some("a/b:"));
    assert_eq!(decode_url("plain"), Some(String::from("plain")));
    assert_eq!(decode_url("bad%2"), None);
    assert_eq!(decode_url("bad%zz"), None);
}

const HASH: &str = "ad42ce8109f54c99613ce38f9b4d87e70f24a165";

#[test]
fn magnet_token_errors() {
    assert_eq!(Magnet::parse(String::from("magnet:?foo")).err(), Some(MagnetError::UnknownToken));
    assert_eq!(Magnet::parse(String::from("magnet:?zz=1")).err(), Some(MagnetError::UnknownToken));
    assert_eq!(
        Magnet::parse(String::from("magnet:?xt=urn:sha1:abcd")).err(),
        Some(MagnetError::NotBtih)
    );
    assert_eq!(Magnet::parse(String::from("magnet:?tr=%zz")).err(), Some(MagnetError::InvalidUrl));
}

#[test]
fn magnet_missing_fields() {
    assert_eq!(
        Magnet::parse(format!("magnet:?tr=a&xt=urn:btih:{HASH}")).err(),
        Some(MagnetError::MissingName)
    );
    assert_eq!(
        Magnet::parse(format!("magnet:?dn=a&xt=urn:btih:{HASH}")).err(),
        Some(MagnetError::MissingTracker)
    );
    let magnet = Magnet::parse(format!("magnet:?dn=a&tr=t&xt=urn:btih:{}", HASH.to_uppercase())).unwrap();
    assert_eq!(hex::encode(magnet.info_hash), HASH);
}
