use morg::file_type::FileType;

#[test]
fn lossless_formats_are_flac_and_wav() {
    assert!(FileType::Flac.is_lossless());
    assert!(FileType::Wav.is_lossless());
    assert!(!FileType::MP3.is_lossless());
    assert!(!FileType::M4A.is_lossless());
}

#[test]
fn format_names_are_lower_case_extensions() {
    assert_eq!(FileType::Flac.name(), "flac");
    assert_eq!(FileType::MP3.to_string(), "mp3".to_string());
    assert_eq!(FileType::Wav.tag(), "WAV");
}

#[test]
fn formats_are_found_by_their_extension() {
    let chars = |t: &str| -> Vec<char> { t.chars().collect() };
    assert_eq!(FileType::from_name(&chars("mp3")), Some(FileType::MP3));
    assert_eq!(FileType::from_name(&chars("m4a")), Some(FileType::M4A));
    assert_eq!(FileType::from_name(&chars("wav")), Some(FileType::Wav));
    assert_eq!(FileType::from_name(&chars("flac")), Some(FileType::Flac));
    assert_eq!(FileType::from_name(&chars("FLAC")), None);
    assert_eq!(FileType::from_name(&chars("fla")), None);
    assert_eq!(FileType::from_name(&chars("")), None);
    assert_eq!(
        FileType::value_variants(),
        vec![FileType::M4A, FileType::MP3, FileType::Wav, FileType::Flac]
    );
    assert_eq!(
        FileType::preference_order(),
        vec![FileType::Flac, FileType::Wav, FileType::MP3, FileType::M4A]
    );
}
