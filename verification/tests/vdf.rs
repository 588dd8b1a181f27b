use rs_steam_updater::vdf::{
    apply_library, build_library_entry, can_apply_library, ensure_apps_in_entry, escape_path,
    last_closing_brace, max_library_index, next_library_index, skeleton_vdf,
};

const SAMPLE: &str = r#""libraryfolders"
{
	"1"
	{
		"path"		"C:\\ExistingLib"
		"label"		""
		"contentid"		"0"
		"totalsize"		"0"
		"update_clean_bytes_tally"		"0"
		"time_last_update_corruption"		"0"
		"apps"
		{
			"730"		"0"
		}
	}
}"#;

#[test]
fn adds_new_library() {
    let out = apply_library(SAMPLE, r"C:\NewLib", &[440]);
    assert!(out.contains("\"path\"\t\t\"C:\\\\NewLib\""));
    assert!(out.contains("\"440\""));
    assert!(out.contains("\"2\""));
}

#[test]
fn no_duplicate_library() {
    let out = apply_library(SAMPLE, r"C:\ExistingLib", &[730]);
    // path should appear exactly once
    assert_eq!(out.matches("C:\\\\ExistingLib").count(), 1);
}

#[test]
fn adds_missing_app_to_existing_library() {
    let out = apply_library(SAMPLE, r"C:\ExistingLib", &[570]);
    assert!(out.contains("\"570\""));
}

#[test]
fn new_library_entry_is_inserted_before_last_brace() {
    let out = apply_library(SAMPLE, r"C:\NewLib", &[440, 570]);
    let expected_entry = "\t\"2\"\n\t{\n\t\t\"path\"\t\t\"C:\\\\NewLib\"\n\t\t\"label\"\t\t\"\"\n\t\t\"contentid\"\t\t\"0\"\n\t\t\"totalsize\"\t\t\"0\"\n\t\t\"update_clean_bytes_tally\"\t\t\"0\"\n\t\t\"time_last_update_corruption\"\t\t\"0\"\n\t\t\"apps\"\n\t\t{\n\t\t\t\"440\"\t\t\"0\"\n\t\t\t\"570\"\t\t\"0\"\n\t\t}\n\t}\n";
    let pos = SAMPLE.rfind('}').unwrap();
    let expected = format!("{}{}{}", &SAMPLE[..pos], expected_entry, &SAMPLE[pos..]);
    assert_eq!(out, expected);
}

#[test]
fn existing_app_leaves_text_unchanged() {
    let out = apply_library(SAMPLE, r"C:\ExistingLib", &[730]);
    assert_eq!(out, SAMPLE);
}

#[test]
fn missing_app_line_is_inserted_before_block_close() {
    let out = apply_library(SAMPLE, r"C:\ExistingLib", &[570, 730]);
    let expected = SAMPLE.replace(
        "\t\t\t\"730\"\t\t\"0\"\n\t\t}",
        "\t\t\t\"730\"\t\t\"0\"\n\t\t\t\"570\"\t\t\"0\"\n\t\t}",
    );
    assert_eq!(out, expected);
}

#[test]
fn applying_twice_changes_nothing_more() {
    let once = apply_library(SAMPLE, r"C:\NewLib", &[440]);
    let twice = apply_library(&once, r"C:\NewLib", &[440]);
    assert_eq!(once, twice);
    let once = apply_library(SAMPLE, r"C:\ExistingLib", &[570]);
    let twice = apply_library(&once, r"C:\ExistingLib", &[570]);
    assert_eq!(once, twice);
}

#[test]
fn skeleton_gets_first_library() {
    let out = apply_library(&skeleton_vdf(), r"D:\Games", &[]);
    assert_eq!(
        out,
        "\"libraryfolders\"\n{\n\t\"1\"\n\t{\n\t\t\"path\"\t\t\"D:\\\\Games\"\n\t\t\"label\"\t\t\"\"\n\t\t\"contentid\"\t\t\"0\"\n\t\t\"totalsize\"\t\t\"0\"\n\t\t\"update_clean_bytes_tally\"\t\t\"0\"\n\t\t\"time_last_update_corruption\"\t\t\"0\"\n\t\t\"apps\"\n\t\t{\n\t\t}\n\t}\n}\n"
    );
}

#[test]
fn text_without_brace_gets_entry_appended() {
    let out = apply_library("\"libraryfolders\"  \n\n", "E", &[7]);
    assert_eq!(out, format!("\"libraryfolders\"\n{}", build_library_entry(1, "E", &[7])));
}

#[test]
fn escape_doubles_backslashes() {
    assert_eq!(escape_path(r"C:\a\b"), r"C:\\a\\b");
    assert_eq!(escape_path("plain"), "plain");
}

#[test]
fn library_index_scans_quoted_numbers() {
    assert_eq!(max_library_index(SAMPLE), 1);
    assert_eq!(next_library_index(SAMPLE), 2);
    assert_eq!(max_library_index("\"0\"\n  \"12\"  \n\"7\"\n\"x1\"\n\"\"\n"), 12);
    assert_eq!(max_library_index("\"4294967296\"\n\"3\""), 3);
    assert_eq!(next_library_index("nothing"), 1);
    assert!(!can_apply_library("\"4294967295\"\n}", "X"));
    assert!(can_apply_library("\"4294967294\"\n}", "X"));
}

#[test]
fn last_brace_position() {
    assert_eq!(last_closing_brace("a}b}c"), Some(3));
    assert_eq!(last_closing_brace("abc"), None);
}

#[test]
fn last_brace_is_a_byte_offset() {
    let text = "\u{e9}}";
    assert_eq!(last_closing_brace(text), Some(2));
    assert_eq!(text.as_bytes()[2], b'}');
    let wide = "{\u{20ac}\u{1f600}}x";
    let at = last_closing_brace(wide).unwrap();
    assert_eq!(at, 8);
    assert_eq!(&wide[at..], "}x");
}

#[test]
fn escaping_round_trips() {
    let path = r"C:\Program Files (x86)\Steam";
    let escaped = escape_path(path);
    assert_eq!(escaped, r"C:\\Program Files (x86)\\Steam");
    assert_eq!(escaped.replace(r"\\", r"\"), path);
    assert_eq!(escaped.len(), path.len() + path.matches('\\').count());
}

#[test]
fn built_entry_needs_no_apps() {
    let entry = build_library_entry(7, r"D:\\Games", &[730, 570, 730]);
    assert_eq!(ensure_apps_in_entry(&entry, r"D:\\Games", &[730, 570, 730]), entry);
    let odd = build_library_entry(1, "a\nb", &[1]);
    assert_eq!(ensure_apps_in_entry(&odd, "a\nb", &[1]), odd);
}

#[test]
fn duplicate_ids_are_added_twice() {
    let out = ensure_apps_in_entry(SAMPLE, r"C:\\ExistingLib", &[9, 9]);
    assert_eq!(out.matches("\"9\"").count(), 2);
}

#[test]
fn entry_without_apps_block_is_left_alone() {
    let v = "\"libraryfolders\"\n{\n\t\"1\"\n\t{\n\t\t\"path\"\t\t\"C:\\\\L\"\n\t}\n}\n";
    assert_eq!(apply_library(v, r"C:\L", &[5]), v);
}

#[test]
fn crlf_text_is_rejoined_with_newlines_when_edited() {
    let crlf = SAMPLE.replace('\n', "\r\n");
    let out = apply_library(&crlf, r"C:\ExistingLib", &[570]);
    let expected = SAMPLE.replace(
        "\t\t\t\"730\"\t\t\"0\"\n\t\t}",
        "\t\t\t\"730\"\t\t\"0\"\n\t\t\t\"570\"\t\t\"0\"\n\t\t}",
    );
    assert_eq!(out, expected);
    // nothing to add: the text is left exactly as it was
    assert_eq!(apply_library(&crlf, r"C:\ExistingLib", &[730]), crlf);
}

#[test]
fn adding_apps_keeps_one_path_line() {
    let out = apply_library(SAMPLE, r"C:\ExistingLib", &[570, 440]);
    assert_eq!(out.lines().filter(|l| l.contains("\"path\"")).count(), 1);
    assert!(out.contains("\"570\"") && out.contains("\"440\""));
}

#[test]
fn registered_library_found_by_its_quoted_path_only() {
    // "C:\\Existing" is a prefix of the registered path but not the quoted path
    let out = apply_library(SAMPLE, r"C:\Existing", &[1]);
    assert_eq!(out.lines().filter(|l| l.contains("\"path\"")).count(), 2);
}
