use rs_steam_updater::steam_cmd::{
    appmanifest_name, choose_temp_dir, kill_current_steamcmd, link_plan, parse_installdir,
    should_migrate, steamcmd_dir, steamcmd_exe, steamcmd_update_args, extraction_plan, ExtractStep,
    LinkPlan, SteamappsEntry,
};
use std::io::Write;

#[test]
fn kill_only_a_running_process() {
    assert_eq!(kill_current_steamcmd(0), None);
    assert_eq!(kill_current_steamcmd(4242), Some(4242));
}

#[test]
fn steamcmd_location_defaults_to_program_data() {
    let sep = std::path::MAIN_SEPARATOR;
    assert_eq!(steamcmd_dir(None), format!("C:\\ProgramData{}SteamCMD", sep));
    assert_eq!(steamcmd_dir(Some("D:\\PD")), format!("D:\\PD{}SteamCMD", sep));
    assert_eq!(
        steamcmd_exe(Some("X")),
        format!("X{}SteamCMD{}steamcmd.exe", sep, sep)
    );
}

#[test]
fn temp_dir_preference() {
    assert_eq!(choose_temp_dir(Some("a".into()), Some("b".into()), "c".into()), "a");
    assert_eq!(choose_temp_dir(None, Some("b".into()), "c".into()), "b");
    assert_eq!(choose_temp_dir(None, None, "c".into()), "c");
}

#[test]
fn installdir_is_read_from_manifest() {
    let acf = "\"AppState\"\n{\n\t\"appid\"\t\t\"570\"\n\t\"installdir\"\t\t\"dota 2 beta\"\n}\n";
    assert_eq!(parse_installdir(acf), Some("dota 2 beta".to_string()));
    assert_eq!(parse_installdir("\"installdir\" \"\""), Some(String::new()));
    assert_eq!(parse_installdir("\"installdir\" \"x"), None);
    assert_eq!(parse_installdir("\"installdir\"\n\"installdir\" \"second\""), Some("second".to_string()));
    assert_eq!(parse_installdir("nothing here"), None);
}

#[test]
fn manifest_name_and_arguments() {
    assert_eq!(appmanifest_name(730), "appmanifest_730.acf");
    assert_eq!(
        steamcmd_update_args("user", "pw", 440),
        vec!["+login", "user", "pw", "+app_update", "440", "validate", "+quit"]
    );
}

#[test]
fn link_plans() {
    assert_eq!(link_plan(SteamappsEntry::Missing), LinkPlan::Create);
    assert_eq!(link_plan(SteamappsEntry::Link { to_target: true }), LinkPlan::Keep);
    assert_eq!(link_plan(SteamappsEntry::Link { to_target: false }), LinkPlan::Replace);
    assert_eq!(link_plan(SteamappsEntry::Other), LinkPlan::MigrateThenCreate);
}

#[test]
fn only_new_manifests_migrate() {
    assert!(should_migrate("appmanifest_1.acf", false));
    assert!(!should_migrate("appmanifest_1.acf", true));
    assert!(!should_migrate("libraryfolders.vdf", false));
    assert!(!should_migrate("acf", false));
}

#[test]
fn no_separator_after_a_final_slash() {
    let sep = std::path::MAIN_SEPARATOR;
    assert_eq!(steamcmd_dir(Some("D:/PD/")), "D:/PD/SteamCMD");
    assert_eq!(steamcmd_dir(Some("")), "SteamCMD");
    assert_eq!(steamcmd_exe(Some("")), format!("SteamCMD{}steamcmd.exe", sep));
}

fn sample_archive() -> Vec<u8> {
    let mut w = zip::ZipWriter::new(std::io::Cursor::new(Vec::new()));
    let options = zip::write::SimpleFileOptions::default();
    w.add_directory("package/", options).unwrap();
    w.start_file("package/readme.txt", options).unwrap();
    w.write_all(b"hello").unwrap();
    w.start_file("steamcmd.exe", options).unwrap();
    w.write_all(&[0x4d, 0x5a, 0x90, 0x00]).unwrap();
    w.finish().unwrap().into_inner()
}

#[test]
fn archive_unpacks_in_order() {
    let sep = std::path::MAIN_SEPARATOR;
    let (steps, err) = extraction_plan("C:\\SteamCMD", &sample_archive());
    assert_eq!(err, None);
    assert_eq!(steps.len(), 3);
    match &steps[0] {
        ExtractStep::CreateDir(p) => assert_eq!(p, &format!("C:\\SteamCMD{}package/", sep)),
        _ => panic!("a directory entry must be created"),
    }
    match &steps[1] {
        ExtractStep::WriteFile(p, data) => {
            assert_eq!(p, &format!("C:\\SteamCMD{}package/readme.txt", sep));
            assert_eq!(data, b"hello");
        }
        _ => panic!("a file entry must be written"),
    }
    match &steps[2] {
        ExtractStep::WriteFile(p, data) => {
            assert_eq!(p, &format!("C:\\SteamCMD{}steamcmd.exe", sep));
            assert_eq!(data, &vec![0x4d, 0x5a, 0x90, 0x00]);
        }
        _ => panic!("a file entry must be written"),
    }
}

#[test]
fn unreadable_archive_is_an_error() {
    let (steps, err) = extraction_plan("dir", b"not a zip archive");
    assert!(steps.is_empty());
    assert!(err.unwrap().starts_with("invalid Zip archive"));
}

#[test]
fn entries_before_a_broken_one_are_still_planned() {
    let mut archive = sample_archive();
    // Corrupt the compressed bytes of the last entry's data only.
    let pos = archive.windows(12).position(|w| w == b"steamcmd.exe").unwrap() + 12;
    for b in &mut archive[pos..pos + 4] {
        *b ^= 0xff;
    }
    let (steps, err) = extraction_plan("d", &archive);
    assert!(err.is_some());
    assert!(steps.len() >= 2);
    assert!(matches!(&steps[1], ExtractStep::WriteFile(_, data) if data == b"hello"));
}

#[test]
fn empty_and_rooted_entry_names() {
    let sep = std::path::MAIN_SEPARATOR;
    let mut w = zip::ZipWriter::new(std::io::Cursor::new(Vec::new()));
    let options = zip::write::SimpleFileOptions::default();
    w.start_file("", options).unwrap();
    w.start_file("/abs.txt", options).unwrap();
    let archive = w.finish().unwrap().into_inner();
    let (steps, err) = extraction_plan("base", &archive);
    assert_eq!(err, None);
    assert_eq!(steps.len(), 2);
    assert!(matches!(&steps[0], ExtractStep::WriteFile(p, _) if *p == format!("base{}", sep)));
    assert!(matches!(&steps[1], ExtractStep::WriteFile(p, _) if p == "/abs.txt"));
}
