//! Build-target paths, the output location, asset path rebasing, and file
//! mode words.

use cargo_generate_rpm::build_target::determine_output_dir;
use cargo_generate_rpm::build_target::BuildTarget;
use cargo_generate_rpm::cli::Cli;
use cargo_generate_rpm::error::ConfigError;
use cargo_generate_rpm::file_info::file_mode_bits;
use cargo_generate_rpm::file_info::get_asset_rel_path;
use cargo_generate_rpm::file_info::parse_octal;
use cargo_generate_rpm::file_info::FileInfo;

#[test]
fn test_target_path() {
    let args = Cli::default();
    let default_target = BuildTarget::new(&args);
    assert_eq!(default_target.target_path("release"), "target/release");

    let target = BuildTarget {
        target: Some("x86_64-unknown-linux-gnu".to_string()),
        ..default_target.clone()
    };
    assert_eq!(
        target.target_path("release"),
        "target/x86_64-unknown-linux-gnu/release"
    );

    let target = BuildTarget {
        target_dir: Some("/tmp/foobar/target".to_string()),
        ..default_target.clone()
    };
    assert_eq!(target.target_path("debug"), "/tmp/foobar/target/debug");

    let target = BuildTarget {
        target_dir: Some("/tmp/foobar/target".to_string()),
        target: Some("x86_64-unknown-linux-gnu".to_string()),
        ..default_target
    };
    assert_eq!(
        target.target_path("debug"),
        "/tmp/foobar/target/x86_64-unknown-linux-gnu/debug"
    );
}

#[test]
fn test_no_output_specified() {
    let output = None;
    let file_name = "test.rpm";
    let build_target = BuildTarget::new(&Cli::default());

    let target_file_name = determine_output_dir(output, false, file_name, &build_target);
    assert_eq!(target_file_name, "target/generate-rpm/test.rpm");
}

#[test]
fn test_output_locations() {
    let build_target = BuildTarget::new(&Cli::default());
    let dir = "/tmp/out".to_string();
    // Output naming a directory: the file goes inside it.
    assert_eq!(
        determine_output_dir(Some(&dir), true, "test.rpm", &build_target),
        "/tmp/out/test.rpm"
    );
    // Output naming a file: taken verbatim.
    let file = "/tmp/out/foo.rpm".to_string();
    assert_eq!(
        determine_output_dir(Some(&file), false, "test.rpm", &build_target),
        "/tmp/out/foo.rpm"
    );
}

#[test]
fn test_binary_arch() {
    let args = Cli::default();
    let bt = BuildTarget::new(&args);
    assert_eq!(bt.binary_arch("x86_64"), "x86_64");
    assert_eq!(bt.binary_arch("x86"), "i586");
    assert_eq!(bt.binary_arch("arm"), "armhfp");
    assert_eq!(bt.binary_arch("powerpc"), "ppc");
    assert_eq!(bt.binary_arch("powerpc64"), "ppc64");

    let bt = BuildTarget {
        target: Some("aarch64-unknown-linux-gnu".to_string()),
        ..BuildTarget::new(&args)
    };
    assert_eq!(bt.binary_arch("x86_64"), "aarch64");

    let bt = BuildTarget {
        arch: Some("riscv64".to_string()),
        target: Some("aarch64-unknown-linux-gnu".to_string()),
        ..BuildTarget::new(&args)
    };
    assert_eq!(bt.binary_arch("x86_64"), "riscv64");
}

#[test]
fn test_get_asset_rel_path() {
    let args = Cli::default();
    let bt = BuildTarget::new(&args);
    assert_eq!(
        get_asset_rel_path("target/release/mybin", &bt),
        "target/release/mybin"
    );
    assert_eq!(get_asset_rel_path("README.md", &bt), "README.md");

    let bt = BuildTarget {
        target_dir: Some("/tmp/t".to_string()),
        ..BuildTarget::new(&args)
    };
    assert_eq!(get_asset_rel_path("target/release/mybin", &bt), "/tmp/t/release/mybin");

    let bt = BuildTarget {
        target_dir: Some("/tmp/t".to_string()),
        target: Some("target-triple".to_string()),
        profile: "my-profile".to_string(),
        ..BuildTarget::new(&args)
    };
    assert_eq!(
        get_asset_rel_path("target/release/my-bin", &bt),
        "/tmp/t/target-triple/my-profile/my-bin"
    );
    assert_eq!(
        get_asset_rel_path("target/my-profile/my-bin", &bt),
        "/tmp/t/target-triple/my-profile/my-bin"
    );

    // The dev profile builds into the debug directory.
    let bt = BuildTarget {
        profile: "dev".to_string(),
        ..BuildTarget::new(&args)
    };
    assert_eq!(get_asset_rel_path("target/debug/mybin", &bt), "target/debug/mybin");
}

#[test]
fn test_parse_octal() {
    assert_eq!(parse_octal("755"), Some(0o755));
    assert_eq!(parse_octal("0644"), Some(0o644));
    assert_eq!(parse_octal("100755"), Some(0o100755));
    assert_eq!(parse_octal(""), None);
    assert_eq!(parse_octal("8"), None);
    assert_eq!(parse_octal("75x"), None);
    assert_eq!(parse_octal("77777777777777777777777777"), None);
}

#[test]
fn test_file_mode_bits() {
    // A bare permission value is completed with the file type.
    assert_eq!(file_mode_bits("755", "target/release/mybin"), Some(0o100755));
    assert_eq!(file_mode_bits("644", "docs/"), Some(0o040644));
    // A value that already names a type is kept.
    assert_eq!(file_mode_bits("100755", "mybin"), Some(0o100755));
    // A malformed value is rejected.
    assert_eq!(file_mode_bits("whatever", "mybin"), None);
}

#[test]
fn test_generate_rpm_file_path() {
    let args = Cli::default();
    let bt = BuildTarget::new(&args);
    let file_info = FileInfo {
        source: "README.md".to_string(),
        dest: "/usr/share/doc/cargo-generate-rpm/README.md".to_string(),
        user: None,
        group: None,
        mode: None,
        config: false,
        config_noreplace: false,
        doc: true,
        caps: None,
    };
    // A file present at its source path is used from there.
    assert_eq!(
        file_info.generate_rpm_file_path(&bt, "/work", true, false),
        Ok("README.md".to_string())
    );
    // A relative source missing there, but present under the manifest's
    // directory, is used from under it.
    assert_eq!(
        file_info.generate_rpm_file_path(&bt, "/work", false, true),
        Ok("/work/README.md".to_string())
    );
    // A file found nowhere is a missing asset.
    assert_eq!(
        file_info.generate_rpm_file_path(&bt, "/work", false, false),
        Err(ConfigError::AssetFileNotFound("README.md".to_string()))
    );
}
