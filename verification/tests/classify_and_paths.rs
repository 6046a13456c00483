use lumasift::classify::classify;
use lumasift::model::SelectionType;
use lumasift::path::{compare_paths, display_name, extension, file_name, starts_with, FilePath, PartKind, PathPart, Precedence};
use std::path::{Component, Path, Prefix};

fn part(kind: PartKind, first: &[u8], second: &[u8], shown: String) -> PathPart {
    PathPart { kind, first: first.to_vec(), second: second.to_vec(), shown }
}

fn file_path(text: &str) -> FilePath {
    let mut parts = Vec::new();
    for component in Path::new(text).components() {
        parts.push(match component {
            Component::Prefix(prefix) => match prefix.kind() {
                Prefix::Verbatim(a) => part(PartKind::Verbatim, a.as_encoded_bytes(), b"", component.as_os_str().to_string_lossy().into_owned()),
                Prefix::VerbatimUNC(a, b) => part(PartKind::VerbatimUnc, a.as_encoded_bytes(), b.as_encoded_bytes(), component.as_os_str().to_string_lossy().into_owned()),
                Prefix::VerbatimDisk(d) => part(PartKind::VerbatimDisk, &[d], b"", component.as_os_str().to_string_lossy().into_owned()),
                Prefix::DeviceNS(a) => part(PartKind::DeviceNs, a.as_encoded_bytes(), b"", component.as_os_str().to_string_lossy().into_owned()),
                Prefix::UNC(a, b) => part(PartKind::Unc, a.as_encoded_bytes(), b.as_encoded_bytes(), component.as_os_str().to_string_lossy().into_owned()),
                Prefix::Disk(d) => part(PartKind::Disk, &[d], b"", component.as_os_str().to_string_lossy().into_owned()),
            },
            Component::RootDir => part(PartKind::RootDir, b"", b"", component.as_os_str().to_string_lossy().into_owned()),
            Component::CurDir => part(PartKind::CurDir, b"", b"", component.as_os_str().to_string_lossy().into_owned()),
            Component::ParentDir => part(PartKind::ParentDir, b"", b"", component.as_os_str().to_string_lossy().into_owned()),
            Component::Normal(name) => part(PartKind::Normal, name.as_encoded_bytes(), b"", component.as_os_str().to_string_lossy().into_owned()),
        });
    }
    FilePath { text: text.to_string(), parts, encoded: text.as_bytes().to_vec() }
}

#[test]
fn selected_category_contract_rejects_unselected_extensions() {
    let selected = vec![SelectionType::Audio];
    assert_eq!(classify(&file_path("library/song.mp3"), &selected).as_deref(), Some("audio"));
    assert_eq!(classify(&file_path("library/movie.mp4"), &selected), None);
}

#[test]
fn classify_ignores_extension_case() {
    let selected = vec![SelectionType::Video, SelectionType::Image];
    assert_eq!(classify(&file_path("clips/HOLIDAY.MP4"), &selected).as_deref(), Some("video"));
    assert_eq!(classify(&file_path("photos/cat.JpEg"), &selected).as_deref(), Some("image"));
    assert_eq!(classify(&file_path("photos/scan.tiff"), &selected).as_deref(), Some("image"));
}

#[test]
fn classify_recognises_documents_only_when_selected() {
    let documents = vec![SelectionType::Document];
    assert_eq!(classify(&file_path("work/report.pdf"), &documents).as_deref(), Some("document"));
    assert_eq!(classify(&file_path("work/letter.docx"), &documents).as_deref(), Some("document"));
    assert_eq!(classify(&file_path("work/letter.doc"), &documents), None);
    assert_eq!(classify(&file_path("work/report.pdf"), &vec![SelectionType::Audio]), None);
}

#[test]
fn classify_needs_an_extension() {
    let all = vec![SelectionType::Video, SelectionType::Audio, SelectionType::Document, SelectionType::Image];
    assert_eq!(classify(&file_path("library/mp3"), &all), None);
    assert_eq!(classify(&file_path("library/.mp3"), &all), None);
    assert_eq!(classify(&file_path("library/song.flac"), &all), None);
}

#[test]
fn display_name_is_the_file_name() {
    assert_eq!(display_name(&file_path("music/album/track.mp3")), "track.mp3");
    assert_eq!(display_name(&file_path("/")), "/");
}

#[test]
fn file_name_and_extension_split_like_std() {
    assert_eq!(file_name(&file_path("a/b/archive.tar.gz")), Some(b"archive.tar.gz".to_vec()));
    assert_eq!(extension(&file_path("a/b/archive.tar.gz")), Some(b"gz".to_vec()));
    assert_eq!(extension(&file_path("a/.hidden")), None);
    assert_eq!(extension(&file_path("a/name.")), Some(b"".to_vec()));
    assert_eq!(file_name(&file_path("a/..")), None);
}

#[test]
fn path_order_follows_components() {
    assert!(matches!(compare_paths(&file_path("a/b"), &file_path("a/c")), Precedence::Before));
    assert!(matches!(compare_paths(&file_path("a/c"), &file_path("a/b")), Precedence::After));
    assert!(matches!(compare_paths(&file_path("a/b"), &file_path("a//b")), Precedence::Same));
    assert!(matches!(compare_paths(&file_path("a"), &file_path("a/b")), Precedence::Before));
    assert!(matches!(compare_paths(&file_path("a/b"), &file_path("a.b")), Precedence::Before));
}

#[test]
fn starts_with_compares_whole_components() {
    assert!(starts_with(&file_path("/data/app/plan.json"), &file_path("/data/app")));
    assert!(!starts_with(&file_path("/data/application/plan.json"), &file_path("/data/app")));
}
