use connection_store::icon::{
    decode_icon_data_url, extension_for_mime_type, icon_data_url, icon_file_name_exec,
    data_url_decodable, icon_file_path, icon_mime_type_exec, managed_icon_extension_exec, split_data_url_exec,
    IconError,
};

#[test]
fn extension_for_known_and_unknown_mime_types() {
    assert_eq!(extension_for_mime_type("image/png"), "png");
    assert_eq!(extension_for_mime_type("image/jpeg"), "jpg");
    assert_eq!(extension_for_mime_type("image/gif"), "gif");
    assert_eq!(extension_for_mime_type("image/icns"), "icns");
    assert_eq!(extension_for_mime_type("image/svg+xml"), "png");
    assert_eq!(extension_for_mime_type("IMAGE/PNG"), "png");
    assert_eq!(extension_for_mime_type(""), "png");
}

#[test]
fn mime_type_from_icon_path() {
    assert_eq!(icon_mime_type_exec("/icons/a.png"), "image/png");
    assert_eq!(icon_mime_type_exec("/icons/a.JPEG"), "image/jpeg");
    assert_eq!(icon_mime_type_exec("/icons/a.jpg"), "image/jpeg");
    assert_eq!(icon_mime_type_exec("a.Gif"), "image/gif");
    assert_eq!(icon_mime_type_exec("a.icns"), "image/icns");
    assert_eq!(icon_mime_type_exec("a.bmp"), "application/octet-stream");
    assert_eq!(icon_mime_type_exec("png"), "image/png");
    assert_eq!(icon_mime_type_exec("a.png.txt"), "application/octet-stream");
}

#[test]
fn icon_path_is_trimmed_and_blank_means_none() {
    assert_eq!(icon_file_path("  "), None);
    assert_eq!(icon_file_path(""), None);
    assert_eq!(icon_file_path(" /a/b.png \n"), Some("/a/b.png".to_string()));
}

#[test]
fn icon_data_url_encodes_contents() {
    assert_eq!(icon_data_url("/a/b.png", b"foo"), "data:image/png;base64,Zm9v");
    assert_eq!(icon_data_url("/a/b.JPG", b"fooba"), "data:image/jpeg;base64,Zm9vYmE=");
    assert_eq!(icon_data_url("/a/b", b""), "data:application/octet-stream;base64,");
}

#[test]
fn split_data_urls() {
    assert_eq!(
        split_data_url_exec("data:image/gif;base64,R0lG"),
        Some(("image/gif".to_string(), "R0lG".to_string()))
    );
    assert_eq!(split_data_url_exec("http://example.com/a.png"), None);
    assert_eq!(split_data_url_exec("data:image/png,abc"), None);
}

#[test]
fn icon_file_names() {
    assert_eq!(icon_file_name_exec("abc", "png"), "abc.png");
}

#[test]
fn decode_data_url_into_icon_file() {
    let f = decode_icon_data_url("id1", "data:image/jpeg;base64,Zm9v").unwrap().unwrap();
    assert_eq!(f.file_name, "id1.jpg");
    assert_eq!(f.contents, b"foo".to_vec());
}

#[test]
fn decode_non_data_url_gives_nothing() {
    assert!(decode_icon_data_url("id1", "/path/icon.png").unwrap().is_none());
}

#[test]
fn decode_invalid_base64_is_an_error() {
    assert!(matches!(
        decode_icon_data_url("id1", "data:image/png;base64,@@@@"),
        Err(IconError::InvalidBase64)
    ));
}

#[test]
fn data_url_round_trip_keeps_bytes_and_extension() {
    let url = icon_data_url("/x/logo.gif", &[0, 1, 2, 250, 255]);
    let f = decode_icon_data_url("c1", &url).unwrap().unwrap();
    assert_eq!(f.contents, vec![0, 1, 2, 250, 255]);
    assert_eq!(f.file_name, "c1.gif");
}

#[test]
fn jpeg_icon_comes_back_as_jpg() {
    let url = icon_data_url("/x/logo.jpeg", b"abc");
    let f = decode_icon_data_url("c2", &url).unwrap().unwrap();
    assert_eq!(f.file_name, "c2.jpg");
}

#[test]
fn managed_icon_extension_is_lowercased_or_png() {
    assert_eq!(managed_icon_extension_exec(Some("PnG")), "png");
    assert_eq!(managed_icon_extension_exec(Some("JPEG")), "jpeg");
    assert_eq!(managed_icon_extension_exec(Some("Äb")), "Äb");
    assert_eq!(managed_icon_extension_exec(Some("")), "");
    assert_eq!(managed_icon_extension_exec(None), "png");
    for ext in ["AbC", "x1Y", "ÉÉ"] {
        assert_eq!(managed_icon_extension_exec(Some(ext)), ext.to_ascii_lowercase());
    }
}

#[test]
fn an_icon_data_url_reads_back_as_the_same_file() {
    let url = icon_data_url("/a/logo.icns", b"\x00\x01icon bytes\xff");
    assert!(data_url_decodable(&url));
    let f = decode_icon_data_url("rec", &url).unwrap().unwrap();
    assert_eq!(f.file_name, "rec.icns");
    assert_eq!(f.contents, b"\x00\x01icon bytes\xff".to_vec());
}
