//! The external-script adapter's stdin/stdout text protocol.

use cargo_generate_rpm::script::build_script_input;
use cargo_generate_rpm::script::parse_script_output;

#[test]
fn test_script_echo_scenario() {
    // An external program that echoes its input verbatim — `cat` — reports
    // exactly the candidate list.
    let candidates = vec!["/a/b".to_string(), "/c/d".to_string()];
    let stdin_text = build_script_input(&candidates);
    assert_eq!(stdin_text, "/a/b\n/c/d");
    let reported = parse_script_output(&stdin_text);
    assert_eq!(reported, candidates);
}

#[test]
fn test_blank_line_suppression() {
    // Interior and trailing blank lines contribute no requirement entries.
    let reported = parse_script_output("libfoo.so.1\n\nlibbar.so.2\n\n\n");
    assert_eq!(
        reported,
        vec!["libfoo.so.1".to_string(), "libbar.so.2".to_string()]
    );
    assert!(reported.iter().all(|r| !r.is_empty()));
    assert_eq!(parse_script_output(""), Vec::<String>::new());
    assert_eq!(parse_script_output("\n\n"), Vec::<String>::new());
}

#[test]
fn test_script_output_kept_verbatim() {
    // The adapter imposes no validation or deduplication of its own.
    let reported = parse_script_output("config(whatever)\nconfig(whatever)\nnot a soname\n");
    assert_eq!(
        reported,
        vec![
            "config(whatever)".to_string(),
            "config(whatever)".to_string(),
            "not a soname".to_string(),
        ]
    );
}
