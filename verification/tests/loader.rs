use std::io::Write;
use ukmm::gui::tasks::{
    after_failure, is_probably_a_mod, looks_like_a_mod, open_converted, OpenStep,
};
use ukmm::gui::Message;
use ukmm::unpack::{
    check_read, EntryRead, Listing, LoaderError, Manifest, ManifestError, ModReader, ModUnpacker,
};

const MANIFEST: &str = r#"
content_files = ["Actor/ActorInfo.product.byml", "Pack/Bootup.pack", "Actor/Pack/Big.bactorpack"]
aoc_files = ["Aoc/0010/Map/MainField/A-1/A-1_Dynamic.mubin"]

[meta]
name = "Test Mod"
version = "1.0.0"
"#;

fn big() -> Vec<u8> {
    (0..20000u32).map(|i| (i % 7) as u8).collect()
}

fn archive(entries: &[(&str, &[u8], bool)]) -> Vec<u8> {
    let mut writer = zip::ZipWriter::new(std::io::Cursor::new(Vec::new()));
    for (name, data, deflate) in entries {
        let method = if *deflate {
            zip::CompressionMethod::Deflated
        } else {
            zip::CompressionMethod::Stored
        };
        let options = zip::write::SimpleFileOptions::default().compression_method(method);
        writer.start_file(*name, options).unwrap();
        writer.write_all(data).unwrap();
    }
    writer.finish().unwrap().into_inner()
}

fn wiiu() -> Vec<u8> {
    archive(&[
        ("manifest.toml", MANIFEST.as_bytes(), false),
        ("Actor/ActorInfo.product.byml", b"actor info", false),
        ("Pack/Bootup.pack", b"bootup pack bytes", true),
        ("Aoc/0010/Map/MainField/A-1/A-1_Dynamic.mubin", b"map unit", false),
    ])
}

#[test]
fn open_mod() {
    let mod_reader = ModReader::open("test/wiiu.zip", wiiu(), vec![]).unwrap();
    assert!(mod_reader.manifest().has_content_file("Pack/Bootup.pack"));
    assert!(mod_reader.manifest().has_aoc_file("Aoc/0010/Map/MainField/A-1/A-1_Dynamic.mubin"));
    assert!(!mod_reader.manifest().has_content_file("Aoc/0010/Map/MainField/A-1/A-1_Dynamic.mubin"));
    assert_eq!(mod_reader.host_path(), "test/wiiu.zip");
    assert!(mod_reader.enabled_opts().is_empty());
    assert_eq!(
        mod_reader.manifest().content_files(),
        &vec!["Actor/ActorInfo.product.byml", "Pack/Bootup.pack", "Actor/Pack/Big.bactorpack"]
    );
    assert_eq!(
        mod_reader.manifest().aoc_files(),
        &vec!["Aoc/0010/Map/MainField/A-1/A-1_Dynamic.mubin"]
    );
}

#[test]
fn file_exists_asks_the_manifest_alone() {
    let reader = ModReader::open("test/wiiu.zip", wiiu(), vec![]).unwrap();
    assert!(reader.file_exists("Actor/ActorInfo.product.byml"));
    assert!(reader.file_exists("Aoc/0010/Map/MainField/A-1/A-1_Dynamic.mubin"));
    assert!(reader.file_exists("Actor/Pack/Big.bactorpack"));
    assert!(!reader.file_exists("manifest.toml"));
    assert!(!reader.file_exists("content/Pack/Bootup.pack"));
}

#[test]
fn file_data_is_read_under_the_canonical_path() {
    let reader = ModReader::open("test/wiiu.zip", wiiu(), vec![]).unwrap();
    assert_eq!(reader.get_file_data("Actor/ActorInfo.product.byml").unwrap(), b"actor info");
    assert_eq!(reader.get_file_data("content\\Pack\\Bootup.pack").unwrap(), b"bootup pack bytes");
    assert_eq!(
        reader.get_file_data("content/Actor/ActorInfo.product.sbyml").unwrap(),
        b"actor info"
    );
    assert_eq!(reader.get_file_data("Pack/Bootup.pack").unwrap(), b"bootup pack bytes");
}

#[test]
fn aoc_file_data_is_read_under_the_aoc_root() {
    let reader = ModReader::open("test/wiiu.zip", wiiu(), vec![]).unwrap();
    assert_eq!(
        reader.get_aoc_file_data("Map/MainField/A-1/A-1_Dynamic.mubin").unwrap(),
        b"map unit"
    );
    assert!(reader.get_file_data("Map/MainField/A-1/A-1_Dynamic.mubin").is_err());
    assert!(reader.get_aoc_file_data("Pack/Bootup.pack").is_err());
}

#[test]
fn missing_entry_fails_and_the_handle_stays_usable() {
    let reader = ModReader::open("test/wiiu.zip", wiiu(), vec![]).unwrap();
    match reader.get_file_data("content/Actor/Pack/Big.sbactorpack") {
        Err(LoaderError::MissingEntry { name, canonical }) => {
            assert_eq!(name, "content/Actor/Pack/Big.sbactorpack");
            assert_eq!(canonical, "Actor/Pack/Big.bactorpack");
        }
        other => panic!("unexpected {:?}", other),
    }
    assert_eq!(reader.get_file_data("Pack/Bootup.pack").unwrap(), b"bootup pack bytes");
}

#[test]
fn stored_entries_are_read_in_full() {
    let data = big();
    let bytes = archive(&[
        ("manifest.toml", b"content_files = []\naoc_files = []\n", false),
        ("Big.bin", &data, false),
    ]);
    let reader = ModReader::open("big.zip", bytes, vec![]).unwrap();
    assert_eq!(reader.get_file_data("Big.bin").unwrap(), data);
}

#[test]
fn short_reads_are_refused() {
    let read = EntryRead { size: 8, buffer: vec![1, 2, 3, 4, 5] };
    match check_read(read, "content/A.bin", "A.bin") {
        Err(e @ LoaderError::ShortRead { .. }) => {
            assert_eq!(
                e.message(),
                "Failed to read file content/A.bin (canonical path A.bin) from mod"
            );
        }
        other => panic!("unexpected {:?}", other),
    }
    let read = EntryRead { size: 3, buffer: vec![7, 8, 9] };
    assert_eq!(check_read(read, "a", "a").unwrap(), vec![7, 8, 9]);
    let read = EntryRead { size: 0, buffer: vec![] };
    assert_eq!(check_read(read, "a", "a").unwrap(), Vec::<u8>::new());
}

#[test]
fn missing_manifest_is_told() {
    let bytes = archive(&[("content/Pack/Bootup.pack", b"x", false)]);
    match ModReader::open("mods/cool.zip", bytes, vec![]) {
        Err(e @ LoaderError::MissingManifest) => {
            assert_eq!(e.message(), "Mod missing manifest file")
        }
        _ => panic!("the mod should not open"),
    }
}

#[test]
fn malformed_manifests_are_told() {
    let open = |text: &str| {
        ModReader::open("m.zip", archive(&[("manifest.toml", text.as_bytes(), false)]), vec![])
    };
    assert!(matches!(
        open("content_files = [").err().unwrap(),
        LoaderError::Manifest(ManifestError::Malformed(_))
    ));
    assert!(matches!(
        open("content_files = []").err().unwrap(),
        LoaderError::Manifest(ManifestError::MissingField("aoc_files"))
    ));
    assert!(matches!(
        open("aoc_files = []").err().unwrap(),
        LoaderError::Manifest(ManifestError::MissingField("content_files"))
    ));
    assert!(matches!(
        open("content_files = 3\naoc_files = []").err().unwrap(),
        LoaderError::Manifest(ManifestError::WrongType("content_files"))
    ));
    assert!(matches!(
        open("content_files = []\naoc_files = [\"a\", 1]").err().unwrap(),
        LoaderError::Manifest(ManifestError::WrongType("aoc_files"))
    ));
    assert!(open("content_files = []\naoc_files = []").is_ok());
}

#[test]
fn manifest_from_listings() {
    let manifest = Manifest::from_listings(
        Listing::Items(vec![Some("a".to_owned()), Some("b".to_owned()), Some("a".to_owned())]),
        Listing::Items(vec![]),
    )
    .unwrap();
    assert!(manifest.has_content_file("a"));
    assert!(manifest.has_content_file("b"));
    assert_eq!(manifest.content_files(), &vec!["a", "b"]);
    assert!(!manifest.has_content_file("c"));
    assert!(!manifest.has_aoc_file("a"));
    assert!(matches!(
        Manifest::from_listings(Listing::Missing, Listing::NotArray).err().unwrap(),
        ManifestError::MissingField("content_files")
    ));
    assert!(matches!(
        Manifest::from_listings(Listing::Items(vec![]), Listing::NotArray).err().unwrap(),
        ManifestError::WrongType("aoc_files")
    ));
    assert!(matches!(
        Manifest::from_listings(Listing::Items(vec![None]), Listing::Items(vec![])).err().unwrap(),
        ManifestError::WrongType("content_files")
    ));
    let e = Manifest::parse(b"content_files = []").err().unwrap();
    assert_eq!(e.message(), "missing field aoc_files");
}

#[test]
fn bytes_that_are_no_archive_do_not_open() {
    match ModReader::open("mods/cool.zip", b"this is no archive at all".to_vec(), vec![]) {
        Err(e @ LoaderError::Archive(_)) => assert!(e.message().contains("invalid Zip")),
        _ => panic!("the mod should not open"),
    }
}

#[test]
fn probable_mods() {
    let modlike = archive(&[("content/Pack/Bootup.pack", b"x", false)]);
    let other = archive(&[("readme.txt", b"x", false), ("src/content/a", b"y", false)]);
    assert!(is_probably_a_mod("mods/cool.zip", &modlike));
    assert!(is_probably_a_mod("mods/cool.ZIP", &modlike));
    assert!(!is_probably_a_mod("mods/cool.zip", &other));
    assert!(!is_probably_a_mod("mods/cool.zip", b"no archive"));
    assert!(is_probably_a_mod("mods/cool.7z", b"no archive"));
    assert!(is_probably_a_mod("mods/cool.7Z", &other));
    assert!(!is_probably_a_mod("mods/cool.rar", &modlike));
    assert!(!is_probably_a_mod("mods/cool", &modlike));
    for root in [
        "content", "aoc", "romfs", "RomFS", "atmosphere", "contents", "01007EF00011E000",
        "01007EF00011F001", "BreathOfTheWild",
    ] {
        let names = Some(vec![None, Some(format!("{}/file", root))]);
        assert!(looks_like_a_mod("a.zip", &names));
    }
    assert!(!looks_like_a_mod("a.zip", &Some(vec![Some("Content/file".to_owned())])));
    assert!(!looks_like_a_mod("a.zip", &None));
}

#[test]
fn opening_a_mod_for_the_shell() {
    match ukmm::gui::tasks::open_mod("test/wiiu.zip", wiiu()) {
        OpenStep::Done(Message::HandleMod(found)) => {
            assert_eq!(found.path, "test/wiiu.zip");
            assert!(!found.enabled);
        }
        other => panic!("unexpected {:?}", other),
    }
    assert!(matches!(ukmm::gui::tasks::open_mod("mods/cool.7z", b"7z bytes".to_vec()), OpenStep::Convert(_)));
    assert!(matches!(ukmm::gui::tasks::open_mod("mods/cool.zip", b"garbage".to_vec()), OpenStep::Failed(_)));
    let graphic_pack = archive(&[("content/Pack/Bootup.pack", b"x", false)]);
    assert!(matches!(
        ukmm::gui::tasks::open_mod("mods/cool.zip", graphic_pack),
        OpenStep::Failed(LoaderError::MissingManifest)
    ));
    assert!(matches!(open_converted("test/wiiu.zip", wiiu()), Ok(Message::HandleMod(_))));
    assert!(open_converted("test/wiiu.zip", b"garbage".to_vec()).is_err());
}

#[test]
fn failures_that_a_conversion_may_mend() {
    let invalid = || LoaderError::Archive("invalid Zip archive: no end of directory".to_owned());
    assert!(matches!(after_failure(invalid(), true), OpenStep::Convert(_)));
    assert!(matches!(after_failure(invalid(), false), OpenStep::Failed(_)));
    let meta = || LoaderError::Io("Mod missing meta file".to_owned());
    assert!(matches!(after_failure(meta(), true), OpenStep::Convert(_)));
    assert!(matches!(after_failure(LoaderError::MissingManifest, true), OpenStep::Failed(_)));
    assert!(matches!(after_failure(LoaderError::ManifestShortRead, true), OpenStep::Failed(_)));
}

#[test]
fn unpacking_does_nothing_yet() {
    let reader = ModReader::open("test/wiiu.zip", wiiu(), vec![]).unwrap();
    assert!(ModUnpacker::new(vec![(reader, vec![])]).unpack().is_ok());
}

#[test]
fn compressed_entries_come_whole_or_not_at_all() {
    let data = big();
    let bytes = archive(&[
        ("manifest.toml", b"content_files = []\naoc_files = []\n", false),
        ("Big.bin", &data, true),
    ]);
    let reader = ModReader::open("big.zip", bytes, vec![]).unwrap();
    assert_eq!(reader.get_file_data("Big.bin").unwrap(), data);
    assert_eq!(reader.get_file_data("Big.bin").unwrap().len(), data.len());
}

#[test]
fn compressed_manifests_are_read_in_full() {
    let mut manifest = String::from("aoc_files = []\ncontent_files = [\n");
    for i in 0..4000 {
        manifest.push_str(&format!("  \"Actor/Pack/Enemy_{:05}.sbactorpack\",\n", i));
    }
    manifest.push_str("]\n");
    let bytes = archive(&[("manifest.toml", manifest.as_bytes(), true)]);
    let reader = ModReader::open("many.zip", bytes, vec![]).unwrap();
    assert_eq!(reader.manifest().content_files().len(), 4000);
    assert!(reader.file_exists("Actor/Pack/Enemy_03999.sbactorpack"));
}

#[test]
fn failures_say_what_failed() {
    assert_eq!(LoaderError::ManifestShortRead.message(), "Failed to read manifest file from mod");
    assert_eq!(LoaderError::Io("unexpected end of file".to_owned()).message(), "unexpected end of file");
    assert_eq!(LoaderError::Archive("invalid Zip archive: x".to_owned()).message(), "invalid Zip archive: x");
    let missing = LoaderError::MissingEntry { name: "a".to_owned(), canonical: "a".to_owned() };
    assert_eq!(missing.message(), "specified file not found in archive");
    let short = LoaderError::ShortRead { name: "content/a".to_owned(), canonical: "a".to_owned() };
    assert_eq!(short.message(), "Failed to read file content/a (canonical path a) from mod");
    let manifest = LoaderError::Manifest(ManifestError::WrongType("aoc_files"));
    assert_eq!(manifest.message(), "invalid type for field aoc_files");
    let malformed = LoaderError::Manifest(ManifestError::Malformed("expected a value".to_owned()));
    assert_eq!(malformed.message(), "expected a value");
}

#[test]
fn manifests_that_nest_too_deep_are_refused_unparsed() {
    let deep = |n: usize| format!("content_files = {}{}\naoc_files = []\n", "[".repeat(n), "]".repeat(n));
    assert!(ukmm::unpack::nesting::stays_within(deep(32).as_bytes()));
    assert!(!ukmm::unpack::nesting::stays_within(deep(33).as_bytes()));
    assert!(matches!(
        Manifest::parse(deep(32).as_bytes()).err().unwrap(),
        ManifestError::WrongType("content_files")
    ));
    for text in [
        deep(33),
        deep(200_000),
        format!("content_files = []\naoc_files = []\nx = {}1", "{a = ".repeat(200_000)),
        format!("content_files = []\naoc_files = []\na{} = 1\n", ".a".repeat(200_000)),
        format!("content_files = []\naoc_files = []\n[a{}]\n", ".a".repeat(200_000)),
        "content_files = []\naoc_files = []\nx = \"\"\"\nmany lines\n\"\"\"\n".to_owned(),
        "content_files = []\naoc_files = []\nx = '''\nmany lines\n'''\n".to_owned(),
    ] {
        match Manifest::parse(text.as_bytes()).err().unwrap() {
            ManifestError::Malformed(words) => assert_eq!(words, "manifest nests too deep"),
            other => panic!("unexpected {:?}", other),
        }
    }
}

#[test]
fn brackets_and_dots_in_strings_and_comments_do_not_nest() {
    let mut text = String::from("# [[[[[[[[[[[[[[[[[[[[[[[[[[[[[[[[[[[[[[[[ a.b.c.d.e.f.g.h.i.j.k.l.m.n.o.p\n");
    text.push_str("content_files = [");
    for i in 0..3000 {
        text.push_str(&format!("\"Model/[{}]/{{x}}.a.b.c\\\"[\", 'lit[{}].x\\', ", i, i));
    }
    text.push_str("]\naoc_files = [\n  \"a.b[\",\n  \"c.d{\",\n]\n");
    assert!(ukmm::unpack::nesting::stays_within(text.as_bytes()));
    let manifest = Manifest::parse(text.as_bytes()).unwrap();
    assert_eq!(manifest.content_files().len(), 6000);
    assert!(manifest.has_content_file("Model/[7]/{x}.a.b.c\"["));
    assert!(manifest.has_content_file("lit[7].x\\"));
    assert_eq!(manifest.aoc_files(), &vec!["a.b[", "c.d{"]);
    assert!(ukmm::unpack::nesting::stays_within(b""));
    assert!(ukmm::unpack::nesting::stays_within(b"a = [1.5, 2.5]\nb = [3.5]\n[t.u]\nv.w = \"\"\n"));
    assert!(!ukmm::unpack::nesting::stays_within(b"a = \"\"\"x\"\"\""));
}
