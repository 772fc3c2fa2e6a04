use ez_core::assets::{
    entry_role, EntryRole,
    make_paths_relative, relative_to, resolve_path, resolve_paths,
    asset_paths, is_pack, is_pack_ext, plan_pack, remap, to_slash, unpack_bytes, unpack_entries,
    unpacked_path_of, write_pack, AssetError, PackReport, Unpacked, PACK_EXTENSION,
};
use ez_core::store::{insert_new, is_mem, read, MemStore};
use ez_core::zipio::ZipEntry;
use ez_core::export::{FrameSink, PngZipSink};

fn s(v: &[&str]) -> Vec<String> {
    v.iter().map(|x| x.to_string()).collect()
}

#[test]
fn pack_files_by_extension() {
    assert!(is_pack("scene.ez2pack"));
    assert!(is_pack("dir/Scene.EZ2PACK"));
    assert!(!is_pack("scene.ez2.json"));
    assert!(!is_pack("ez2pack"));
    assert!(is_pack_ext(Some(PACK_EXTENSION)));
    assert!(!is_pack_ext(None));
}

#[test]
fn slashes_between_names() {
    assert_eq!(to_slash("models/ship.obj"), "models/ship.obj");
    assert_eq!(to_slash("./a//b/"), "a/b");
    assert_eq!(to_slash("/abs/x"), "abs/x");
}

#[test]
fn plan_names_entries_and_reports_missing() {
    let paths = s(&[
        "/p/models/ship.obj",
        "/p/logo.png",
        "/p/song.wav",
        "/p/missing.png",
        "",
        "/q/logo.png",
        "/p/logo.png",
    ]);
    let present = vec![true, true, true, false, true, true, true];
    let plan = plan_pack(&paths, &present);
    assert_eq!(
        plan.renamed,
        s(&[
            "assets/ship.obj",
            "assets/logo.png",
            "assets/song.wav",
            "/p/missing.png",
            "",
            "assets/2_logo.png",
            "assets/logo.png",
        ])
    );
    let names: Vec<&str> = plan.entries.iter().map(|e| e.0.as_str()).collect();
    assert_eq!(
        names,
        vec!["assets/ship.obj", "assets/logo.png", "assets/song.wav", "assets/2_logo.png"]
    );
    assert_eq!(plan.entries[3].1, "/q/logo.png");
    assert_eq!(plan.missing, s(&["/p/missing.png"]));
    let report = PackReport { packed: plan.entries.len(), missing: plan.missing };
    assert_eq!(report.packed, 4);
    assert_eq!(report.missing.len(), 1);
    let empty = PackReport::default();
    assert_eq!((empty.packed, empty.missing.len()), (0, 0));
}

#[test]
fn unpacked_assets_live_in_memory() {
    assert_eq!(unpacked_path_of("test-pack", "assets/logo.png"), "mem://test-pack/assets/logo.png");
    let mapping = vec![
        ("assets/a.png".to_string(), "mem://p/assets/a.png".to_string()),
        ("assets/b.png".to_string(), "mem://p/assets/b.png".to_string()),
    ];
    assert_eq!(remap("assets/b.png", &mapping), Some("mem://p/assets/b.png".to_string()));
    assert_eq!(remap("/abs/c.png", &mapping), None);
}

#[test]
fn pack_bytes_roundtrip_in_memory() {
    let mut store = MemStore::new();
    let logo = insert_new(&mut store, "logo.png", b"PNGDATA".to_vec());
    let plan = plan_pack(&vec![logo.clone()], &vec![true]);
    let files: Vec<(String, Vec<u8>)> = plan
        .entries
        .iter()
        .map(|(name, src)| (name.clone(), read(&store, src).unwrap()))
        .collect();
    let json = format!("{{\"textures\":[{{\"name\":\"logo\",\"path\":\"{}\"}}]}}", plan.renamed[0]);
    let bytes = match write_pack(&json, &files) {
        Ok(b) => b,
        Err(_) => panic!("pack failed"),
    };
    assert_eq!(files.len(), 1);
    let back = match unpack_bytes(&mut store, &bytes, "test-pack") {
        Ok(u) => u,
        Err(_) => panic!("unpack failed"),
    };
    assert_eq!(back.json, json);
    let path = remap(&plan.renamed[0], &back.mapping).unwrap();
    assert!(is_mem(&path), "{path}");
    assert_eq!(read(&store, &path).unwrap(), b"PNGDATA".to_vec());
}

#[test]
fn unpacking_entries() {
    let e = |name: Option<&str>, is_dir: bool, data: &[u8]| ZipEntry {
        name: name.map(|n| n.to_string()),
        is_dir,
        data: data.to_vec(),
    };
    let mut store = MemStore::new();
    let got = unpack_entries(
        &mut store,
        vec![
            e(Some("assets/a.png"), false, b"A"),
            e(None, false, b"evil"),
            e(Some("assets"), true, b""),
            e(Some("project.ez2.json"), false, b"{}"),
        ],
        "p",
    );
    match got {
        Ok(u) => {
            assert_eq!(u.json, "{}");
            assert_eq!(
                u.mapping,
                vec![("assets/a.png".to_string(), "mem://p/assets/a.png".to_string())]
            );
        }
        Err(_) => panic!("has a project"),
    }
    assert_eq!(read(&store, "mem://p/assets/a.png"), Some(b"A".to_vec()));
    let mut other = MemStore::new();
    match unpack_entries(&mut other, vec![e(Some("x"), false, b"1")], "q") {
        Err(AssetError::Invalid(m)) => assert_eq!(m, "project.ez2.json missing in pack"),
        _ => panic!("no project"),
    }
    assert_eq!(read(&other, "mem://q/x"), Some(b"1".to_vec()));
    match unpack_bytes_err() {
        Err(AssetError::Zip(_)) => {}
        _ => panic!("not a zip"),
    }
}

fn unpack_bytes_err() -> Result<Unpacked, AssetError> {
    let mut store = MemStore::new();
    unpack_bytes(&mut store, b"not a zip", "x")
}

#[test]
fn asset_paths_are_distinct_and_in_order() {
    assert_eq!(asset_paths(&s(&["a.png", "", "b.obj", "a.png", ""])), s(&["a.png", "b.obj"]));
    assert!(asset_paths(&s(&["", ""])).is_empty());
}

#[test]
fn pack_extension_of_plain_paths() {
    assert!(is_pack("a/scene.ez2pack"));
    assert!(is_pack("scene.EZ2PACK"));
    assert!(!is_pack(".ez2pack"));
    assert!(!is_pack("a/.ez2pack"));
    assert!(!is_pack("scene.ez2pack.json"));
    assert!(is_pack("old..ez2pack"));
}

#[test]
fn slash_form_drops_dots_and_empty_pieces() {
    assert_eq!(to_slash("a/./b//c/../d"), "a/b/c/d");
    assert_eq!(to_slash(""), "");
    assert_eq!(to_slash("x"), "x");
}

#[test]
fn pack_refuses_names_too_long_for_a_zip() {
    let long = "a".repeat(65536);
    let files = vec![("assets/ok.png".to_string(), b"1".to_vec()), (long, b"2".to_vec())];
    match write_pack("{}", &files) {
        Err(AssetError::Invalid(m)) => assert_eq!(m, "pack entry name longer than 65535 bytes"),
        _ => panic!("name too long"),
    }
    let fits = vec![("a".repeat(65535), b"3".to_vec())];
    assert!(write_pack("{}", &fits).is_ok());
}

#[test]
fn pack_round_trip_keeps_every_file() {
    let files = vec![
        ("assets/a.png".to_string(), b"AAA".to_vec()),
        ("assets/empty.bin".to_string(), Vec::new()),
        ("assets/2_a.png".to_string(), vec![7u8; 5000]),
    ];
    let bytes = match write_pack("{\"k\":1}", &files) {
        Ok(b) => b,
        Err(_) => panic!("pack failed"),
    };
    let mut store = MemStore::new();
    let back = match unpack_bytes(&mut store, &bytes, "rt") {
        Ok(u) => u,
        Err(_) => panic!("unpack failed"),
    };
    assert_eq!(back.json, "{\"k\":1}");
    let want: Vec<(String, String)> = files
        .iter()
        .map(|(n, _)| (n.clone(), format!("mem://rt/{n}")))
        .collect();
    assert_eq!(back.mapping, want);
    for (n, d) in &files {
        assert_eq!(read(&store, &format!("mem://rt/{n}")), Some(d.clone()));
    }
}

#[test]
fn pack_of_no_entries_and_bytes_of_no_archive() {
    let mut store = MemStore::new();
    let bytes = match write_pack("{}", &vec![]) {
        Ok(b) => b,
        Err(_) => panic!("pack failed"),
    };
    match unpack_bytes(&mut store, &bytes, "p") {
        Ok(u) => {
            assert_eq!(u.json, "{}");
            assert!(u.mapping.is_empty());
        }
        Err(_) => panic!("has a project"),
    }
    match unpack_bytes(&mut store, &[], "p") {
        Err(AssetError::Zip(_)) => {}
        _ => panic!("no archive"),
    }
}

#[test]
fn archive_without_project_file() {
    let mut sink = PngZipSink::default();
    let red = [255u8, 0, 0, 255].repeat(4);
    assert!(sink.add_frame(&red, 2, 2).is_ok());
    let bytes = match Box::new(sink).finish() {
        Ok(b) => b,
        Err(_) => panic!("finish failed"),
    };
    let mut store = MemStore::new();
    match unpack_bytes(&mut store, &bytes, "f") {
        Err(AssetError::Invalid(m)) => assert_eq!(m, "project.ez2.json missing in pack"),
        _ => panic!("no project file"),
    }
    let frame = read(&store, "mem://f/frame_00000.png").unwrap();
    assert_eq!(&frame[0..4], b"\x89PNG");
}

#[test]
fn asset_paths_relative_to_the_project_folder() {
    assert_eq!(relative_to("/p/models/ship.obj", "/p"), Some("models/ship.obj".to_string()));
    assert_eq!(relative_to("/p/./a//b.png", "/p/"), Some("a/b.png".to_string()));
    assert_eq!(relative_to("/q/a.png", "/p"), None);
    assert_eq!(relative_to("/pp/a.png", "/p"), None);
    let mut paths = vec!["/p/a.png".to_string(), "/elsewhere/b.png".to_string(), String::new()];
    make_paths_relative(&mut paths, "/p");
    assert_eq!(paths, vec!["a.png".to_string(), "/elsewhere/b.png".to_string(), String::new()]);
}

#[test]
fn relative_asset_paths_resolve_in_the_project_folder() {
    assert_eq!(resolve_path("", "/p"), "");
    assert_eq!(resolve_path("a.png", ""), "a.png");
    assert_eq!(resolve_path("a.png", "/p/"), "/p/a.png");
    let sep = std::path::MAIN_SEPARATOR;
    assert_eq!(resolve_path("models/ship.obj", "/p"), format!("/p{sep}models/ship.obj"));
    let mut paths = vec!["x.wav".to_string(), String::new()];
    resolve_paths(&mut paths, "base");
    assert_eq!(paths, vec![format!("base{sep}x.wav"), String::new()]);
}

#[test]
fn pack_of_plain_files_is_written() {
    let files = vec![("assets/a.png".to_string(), vec![1u8; 10]), ("assets/b.png".to_string(), vec![])];
    assert!(write_pack("{}", &files).is_ok());
    let dup = vec![("assets/a.png".to_string(), vec![1u8]), ("assets/a.png".to_string(), vec![2u8])];
    assert!(matches!(write_pack("{}", &dup), Err(AssetError::Zip(_))));
    let named_like_project = vec![("project.ez2.json".to_string(), vec![1u8])];
    assert!(matches!(write_pack("{}", &named_like_project), Err(AssetError::Zip(_))));
}

#[test]
fn roles_of_pack_files() {
    assert_eq!(entry_role(Some("project.ez2.json"), false), EntryRole::Project);
    assert_eq!(entry_role(Some("assets/a.png"), false), EntryRole::Asset);
    assert_eq!(entry_role(Some("assets"), true), EntryRole::Skip);
    assert_eq!(entry_role(None, false), EntryRole::Skip);
}
