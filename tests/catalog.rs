use audio_engine::catalog::{
    cover_data_uri, cover_file_names, cover_mime, cover_picture, data_uri, is_audio_extension,
    is_listed_extension, CoverArt, CoverCache, PictureKind,
};

#[test]
fn audio_extensions_match_any_case() {
    assert!(is_audio_extension("mp3"));
    assert!(is_audio_extension("FLAC"));
    assert!(is_audio_extension("Opus"));
    assert!(!is_audio_extension("txt"));
    assert!(!is_audio_extension(""));
    assert!(!is_audio_extension("mp33"));
}

#[test]
fn listed_extensions_are_lower_case_only() {
    assert!(is_listed_extension("mpc"));
    assert!(!is_listed_extension("MPC"));
}

#[test]
fn front_cover_is_preferred() {
    let kinds = vec![PictureKind::Other, PictureKind::Ignored, PictureKind::CoverFront, PictureKind::CoverFront];
    assert_eq!(cover_picture(&kinds), Some(2));
}

#[test]
fn fallback_picture_when_no_front_cover() {
    let kinds = vec![PictureKind::Ignored, PictureKind::BandLogo, PictureKind::Other];
    assert_eq!(cover_picture(&kinds), Some(1));
    assert_eq!(cover_picture(&vec![PictureKind::Ignored]), None);
    assert_eq!(cover_picture(&vec![]), None);
}

#[test]
fn sidecar_names_and_mime_types() {
    assert_eq!(cover_file_names(), vec!["Cover.jpg", "Cover.png", "cover.jpg", "cover.png"]);
    assert_eq!(cover_mime("png"), "image/png");
    assert_eq!(cover_mime("jpg"), "image/jpeg");
    assert_eq!(cover_mime("jpeg"), "image/jpeg");
    assert_eq!(cover_mime("gif"), "application/octet-stream");
}

#[test]
fn data_uri_encodes_bytes_in_base64() {
    assert_eq!(cover_data_uri("image/png", &b"hello".to_vec()), "data:image/png;base64,aGVsbG8=");
    assert_eq!(cover_data_uri("image/jpeg", &vec![]), "data:image/jpeg;base64,");
    assert_eq!(data_uri("a/b", "QUJD"), "data:a/b;base64,QUJD");
}

fn art(uri: &str) -> CoverArt {
    CoverArt { base64: uri.to_string(), cache: None }
}

#[test]
fn cache_keeps_first_cover_per_key() {
    let mut cache = CoverCache::new();
    assert!(cache.lookup("/music/a.mp3").is_none());
    cache.add_entry("/music/a.mp3".to_string(), art("data:first"));
    cache.add_entry("/music/a.mp3".to_string(), art("data:second"));
    cache.add_entry("/music/b.mp3".to_string(), art("data:other"));
    assert_eq!(cache.lookup("/music/a.mp3").unwrap().as_base64(), "data:first");
    assert_eq!(cache.lookup("/music/b.mp3").unwrap().as_base64(), "data:other");
    cache.clear();
    assert!(cache.lookup("/music/a.mp3").is_none());
}
