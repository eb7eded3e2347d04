use strikers_notifier::locator::{clean_line, scan_library_folders};

fn bytes(s: &str) -> Vec<u8> {
    s.as_bytes().to_vec()
}

#[test]
fn clean_trims_and_unquotes() {
    assert_eq!(clean_line(&bytes("  \t\"path\"\t\t\"/mnt\"  \r")), bytes("path\t\t/mnt"));
    assert_eq!(clean_line(&bytes("")), bytes(""));
    assert_eq!(clean_line(&bytes("   \t  ")), bytes(""));
    assert_eq!(clean_line(&bytes("\"\"\"\"")), bytes(""));
    assert_eq!(clean_line(&bytes("plain")), bytes("plain"));
}

#[test]
fn scan_finds_path_of_library_holding_the_game() {
    let lines = vec![
        bytes("\"libraryfolders\""),
        bytes("{"),
        bytes("\t\"0\""),
        bytes("\t{"),
        bytes("\t\t\"path\"\t\t\"/home/user/.local/share/Steam\""),
        bytes("\t\t\"apps\""),
        bytes("\t\t{"),
        bytes("\t\t\t\"400\"\t\t\"123\""),
        bytes("\t\t}"),
        bytes("\t\"1\""),
        bytes("\t{"),
        bytes("\t\t\"path\"\t\t\"/mnt/games\""),
        bytes("\t\t\"apps\""),
        bytes("\t\t{"),
        bytes("\t\t\t\"1869590\"\t\t\"456\""),
        bytes("\t\t}"),
        bytes("\t}"),
        bytes("}"),
    ];
    assert_eq!(scan_library_folders(&lines), bytes("/mnt/games"));
}

#[test]
fn scan_stops_at_the_application_id() {
    // A later library's path must not replace the one already found when the
    // id key ends the scan first.
    let lines = vec![
        bytes("\"path\"\t\t\"/first\""),
        bytes("\"1869590\"\t\t\"1\""),
        bytes("\"path\"\t\t\"/second\""),
    ];
    assert_eq!(scan_library_folders(&lines), bytes("/first"));
}

#[test]
fn scan_without_id_keeps_last_path() {
    let lines = vec![
        bytes("\"path\"\t\t\"/first\""),
        bytes("\"path\"\t\t\"/second\""),
    ];
    assert_eq!(scan_library_folders(&lines), bytes("/second"));
}

#[test]
fn scan_without_path_yields_nothing() {
    let lines = vec![bytes("\"label\"\t\t\"x\""), bytes("{"), bytes("}")];
    assert_eq!(scan_library_folders(&lines), bytes(""));
}

#[test]
fn lines_without_delimiter_are_skipped() {
    let lines = vec![
        bytes("path /elsewhere"),
        bytes("\"path\"\t\t\"/real\""),
    ];
    assert_eq!(scan_library_folders(&lines), bytes("/real"));
}
