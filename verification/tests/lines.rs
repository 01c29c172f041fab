use lines_db::formats::ColonKeyFormat;
use lines_db::lines::{codec_for_path, Codec, Error, LineReader};
use lines_db::Format;

#[test]
fn codec_chosen_by_extension() {
    assert_eq!(codec_for_path("data.gz").unwrap(), Codec::Gzip);
    assert_eq!(codec_for_path("data.zst").unwrap(), Codec::Zstd);
    assert_eq!(codec_for_path("data.txt").unwrap(), Codec::Plain);
    assert_eq!(codec_for_path("archive.tar.gz").unwrap(), Codec::Gzip);
}

#[test]
fn codec_extension_match_ignores_case() {
    assert_eq!(codec_for_path("DATA.GZ").unwrap(), Codec::Gzip);
    assert_eq!(codec_for_path("data.Zst").unwrap(), Codec::Zstd);
}

#[test]
fn codec_needs_an_extension() {
    assert!(matches!(codec_for_path("noextension"), Err(Error::InvalidPath(p)) if p == "noextension"));
    assert!(matches!(codec_for_path(".gitignore"), Err(Error::InvalidPath(_))));
    assert!(matches!(codec_for_path("dir.d/file"), Err(Error::InvalidPath(_))));
    assert!(matches!(codec_for_path(""), Err(Error::InvalidPath(_))));
}

#[test]
fn codec_trailing_dot_reads_as_plain() {
    assert_eq!(codec_for_path("file.").unwrap(), Codec::Plain);
}

#[test]
fn line_reader_numbers_from_one() {
    let mut reader = LineReader::new("in.txt");
    assert_eq!(reader.next("first".to_string()), (1, "first".to_string()));
    assert_eq!(reader.next("second".to_string()), (2, "second".to_string()));
    assert_eq!(reader.next("third".to_string()), (3, "third".to_string()));
    let loc = reader.location();
    assert_eq!(loc.path, "in.txt");
    assert_eq!(loc.line_number, 3);
}

#[test]
fn colon_format_derives_key_and_path() {
    assert_eq!(ColonKeyFormat::key("alpha:rest").unwrap(), b"alpha".to_vec());
    assert!(ColonKeyFormat::key("no delimiter").is_err());
    assert!(ColonKeyFormat::key(":leading").is_err());
    assert_eq!(ColonKeyFormat::path(b"alpha").unwrap(), "low.txt");
    assert_eq!(ColonKeyFormat::path(b"zulu").unwrap(), "high.txt");
    assert!(ColonKeyFormat::path(b"").is_err());
}
