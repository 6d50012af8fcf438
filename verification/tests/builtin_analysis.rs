//! The builtin ELF and shebang analysis, exercised on concrete inputs.

use cargo_generate_rpm::builtin::builtin_file_requires;
use cargo_generate_rpm::builtin::find_require_of_shebang;
use cargo_generate_rpm::builtin::find_requires_by_ldd;
use cargo_generate_rpm::builtin::find_requires;
use cargo_generate_rpm::builtin::find_requires_of_elf;
use cargo_generate_rpm::builtin::FileObservations;
use cargo_generate_rpm::builtin::is_dependency_soname;
use cargo_generate_rpm::builtin::is_executable;
use cargo_generate_rpm::builtin::ElfInfo;
use cargo_generate_rpm::error::AutoReqError;
use std::io::Write;

/// A minimal 64-bit little-endian ELF image: a file header and two section
/// headers, the second of them a GNU-style hash table.
fn synthetic_elf(machine: u16, section_types: &[u32]) -> Vec<u8> {
    let shnum = section_types.len() as u16;
    let mut image = vec![0u8; 64 + 64 * section_types.len()];
    image[0] = 0x7f;
    image[1] = b'E';
    image[2] = b'L';
    image[3] = b'F';
    image[4] = 2; // ELFCLASS64
    image[5] = 1; // little endian
    image[6] = 1; // EV_CURRENT
    image[16] = 2; // ET_EXEC
    image[18..20].copy_from_slice(&machine.to_le_bytes());
    image[20] = 1; // e_version
    image[40..48].copy_from_slice(&64u64.to_le_bytes()); // e_shoff
    image[52..54].copy_from_slice(&64u16.to_le_bytes()); // e_ehsize
    image[58..60].copy_from_slice(&64u16.to_le_bytes()); // e_shentsize
    image[60..62].copy_from_slice(&shnum.to_le_bytes()); // e_shnum
    for (k, ty) in section_types.iter().enumerate() {
        let at = 64 + 64 * k + 4;
        image[at..at + 4].copy_from_slice(&ty.to_le_bytes());
    }
    image
}

const LDD_REPORT: &str = "\tlinux-vdso.so.1 (0x00007ffc60b7f000)\n\
\tlibc.so.6 => /lib/x86_64-linux-gnu/libc.so.6 (0x00007f1a2d000000)\n\
\t/lib64/ld-linux-x86-64.so.2 => /lib64/ld-linux-x86-64.so.2 (0x00007f1a2d3b0000)\n\
\n\
\tVersion information:\n\
\t/bin/sh:\n\
\t\tlibc.so.6 (GLIBC_2.34) => /lib/x86_64-linux-gnu/libc.so.6\n\
\t\tlibc.so.6 (GLIBC_2.2.5) => /lib/x86_64-linux-gnu/libc.so.6\n";

#[test]
fn test_elf_info_new() {
    let image = synthetic_elf(62, &[0, 0x6ffffff6]);
    let info = ElfInfo::new(&image).unwrap();
    assert!(info.is_64bit);
    assert_eq!(info.machine, 62);
    assert!(info.got_gnu_hash);
    assert!(!info.got_hash);
    assert_eq!(info.marker(), Some("(64bit)"));

    let with_both = synthetic_elf(62, &[5, 0x6ffffff6]);
    let info = ElfInfo::new(&with_both).unwrap();
    assert!(info.got_hash);
    assert!(info.got_gnu_hash);

    // Not an ELF object at all.
    assert!(ElfInfo::new(b"#!/bin/sh\necho hello\n").is_none());
}

#[test]
fn test_find_requires_of_elf() {
    let image = synthetic_elf(62, &[0, 0x6ffffff6]);
    let info = ElfInfo::new(&image).unwrap();
    let requires = find_requires_of_elf(&info, LDD_REPORT, "/bin/sh");
    assert!(requires
        .iter()
        .all(|v| v.contains(".so") || v == "rtld(GNU_HASH)"));
    assert_eq!(
        requires,
        vec![
            "libc.so.6()(64bit)".to_string(),
            "libc.so.6(GLIBC_2.2.5)(64bit)".to_string(),
            "libc.so.6(GLIBC_2.34)(64bit)".to_string(),
            "rtld(GNU_HASH)".to_string(),
        ]
    );
    // A source file is no ELF object and yields no descriptor.
    assert!(ElfInfo::new(b"use std::io::Read;\n").is_none());
}

#[test]
fn builtin_test_find_requires_of_elf() {
    // With a legacy hash section present the loader sentinel is not added,
    // and a 32-bit descriptor adds no marker.
    let info = ElfInfo {
        is_64bit: false,
        machine: 3,
        got_hash: true,
        got_gnu_hash: true,
    };
    let requires = find_requires_of_elf(&info, LDD_REPORT, "/bin/sh");
    assert!(requires.iter().all(|v| v.contains(".so")));
    assert!(!requires.iter().any(|v| v == "rtld(GNU_HASH)"));
    assert_eq!(
        requires,
        vec![
            "libc.so.6()".to_string(),
            "libc.so.6(GLIBC_2.2.5)".to_string(),
            "libc.so.6(GLIBC_2.34)".to_string(),
        ]
    );
}

#[test]
fn test_marker_correctness() {
    // A 64-bit machine outside the Alpha exceptions carries the marker, and
    // every emitted soname requirement ends with it.
    let info = ElfInfo {
        is_64bit: true,
        machine: 62,
        got_hash: true,
        got_gnu_hash: false,
    };
    assert_eq!(info.marker(), Some("(64bit)"));
    let requires = find_requires_of_elf(&info, LDD_REPORT, "/bin/sh");
    assert!(!requires.is_empty());
    assert!(requires.iter().all(|v| v.ends_with("(64bit)")));

    // For a 32-bit descriptor none carry it.
    let info32 = ElfInfo {
        is_64bit: false,
        machine: 3,
        got_hash: true,
        got_gnu_hash: false,
    };
    assert_eq!(info32.marker(), None);
    let requires = find_requires_of_elf(&info32, LDD_REPORT, "/bin/sh");
    assert!(!requires.is_empty());
    assert!(requires.iter().all(|v| !v.ends_with("(64bit)")));

    // The Alpha machine codes never carry it, canonical or vendor value.
    for machine in [41u16, 0x9026] {
        let alpha = ElfInfo {
            is_64bit: true,
            machine,
            got_hash: true,
            got_gnu_hash: false,
        };
        assert_eq!(alpha.marker(), None);
    }
}

#[test]
fn test_soname_filter() {
    assert!(is_dependency_soname("libc.so.6"));
    assert!(is_dependency_soname("ld-linux-x86-64.so.2"));
    assert!(is_dependency_soname("ld.so.1"));
    assert!(is_dependency_soname("ld64.so.1"));
    assert!(!is_dependency_soname("linux-vdso.so.1"));
    assert!(!is_dependency_soname("/lib64/ld-linux-x86-64.so.2"));
    assert!(!is_dependency_soname("libfoo"));
    assert!(!is_dependency_soname("statically linked"));
}

#[test]
fn test_find_requires_by_ldd_empty_and_static() {
    // A statically linked binary's report yields nothing.
    assert_eq!(
        find_requires_by_ldd("\tstatically linked\n", "/bin/true", Some("(64bit)")),
        Vec::<String>::new()
    );
    assert_eq!(find_requires_by_ldd("", "/bin/true", None), Vec::<String>::new());
}

#[test]
fn test_find_requires_by_ldd_is_idempotent() {
    let once = find_requires_by_ldd(LDD_REPORT, "/bin/sh", Some("(64bit)"));
    let twice = find_requires_by_ldd(LDD_REPORT, "/bin/sh", Some("(64bit)"));
    assert_eq!(once, twice);
}

#[test]
fn test_find_require_of_shebang() {
    let mut file = tempfile::NamedTempFile::new().unwrap();
    let path = file.path().to_str().unwrap().to_string();
    let content = format!("#!{}\necho hello\n", path);
    file.write_all(content.as_bytes()).unwrap();

    // A shebang naming an existing file resolves to that interpreter.
    let line = format!("#!{}", path);
    let candidate = find_require_of_shebang(&line);
    assert_eq!(candidate, Some(path.clone()));
    assert!(std::path::Path::new(&candidate.unwrap()).exists());

    // A shebang naming a missing file parses, but the existence gate then
    // yields no requirement.
    let candidate = find_require_of_shebang("#!/path/that/does/not/exist");
    assert_eq!(candidate, Some("/path/that/does/not/exist".to_string()));
    assert!(!std::path::Path::new("/path/that/does/not/exist").exists());

    // Without the marker there is no interpreter.
    assert_eq!(find_require_of_shebang("echo hello"), None);
    assert_eq!(find_require_of_shebang(""), None);
    assert_eq!(find_require_of_shebang("#"), None);

    // The candidate is the leading ASCII, non-whitespace run, trimmed.
    assert_eq!(
        find_require_of_shebang("#! /usr/bin/env python3"),
        Some("/usr/bin/env".to_string())
    );
}

#[test]
fn test_is_executable() {
    // /bin/sh carries mode 0o100755: some execute bit is set.
    let sh = ("/bin/sh", Some(0o100755u32));
    let source = ("tests/builtin_analysis.rs", Some(0o100644u32));
    assert!(is_executable(sh.1));
    assert!(!is_executable(source.1));
}

#[test]
fn builtin_test_is_executable() {
    assert!(is_executable(Some(0o100111)));
    assert!(is_executable(Some(0o100010)));
    assert!(!is_executable(Some(0o100600)));
    // A file whose mode could not be read counts as not executable.
    assert!(!is_executable(None));
}

#[test]
fn test_executability_gate() {
    // A non-executable file is never analyzed: it contributes nothing, even
    // when a descriptor, a report and an existing interpreter are at hand.
    let info = ElfInfo {
        is_64bit: true,
        machine: 62,
        got_hash: false,
        got_gnu_hash: true,
    };
    let report = LDD_REPORT.to_string();
    let shebang = Some("/bin/sh".to_string());
    let out = builtin_file_requires(false, &Some(info), Some(&report), "/bin/sh", &shebang, true);
    assert_eq!(out, Ok(Vec::new()));
}

#[test]
fn test_builtin_file_requires_paths() {
    let info = ElfInfo {
        is_64bit: true,
        machine: 62,
        got_hash: false,
        got_gnu_hash: true,
    };
    let report = LDD_REPORT.to_string();

    // An executable binary with a report: the ELF path's requirements.
    let out = builtin_file_requires(true, &Some(info), Some(&report), "/bin/sh", &None, false);
    let requires = out.unwrap();
    assert!(requires.contains(&"rtld(GNU_HASH)".to_string()));

    // A binary whose report could not be gathered is a process error.
    let out = builtin_file_requires(true, &Some(info), None, "/bin/sh", &None, false);
    assert_eq!(out, Err(AutoReqError::ProcessError("ldd".to_string())));

    // A script with an existing interpreter contributes it.
    let shebang = Some("/usr/bin/env".to_string());
    let out = builtin_file_requires(true, &None, None, "script", &shebang, true);
    assert_eq!(out, Ok(vec!["/usr/bin/env".to_string()]));

    // The same script contributes nothing when the interpreter is missing.
    let out = builtin_file_requires(true, &None, None, "script", &shebang, false);
    assert_eq!(out, Ok(Vec::new()));

    // A plain file with neither shape contributes nothing.
    let out = builtin_file_requires(true, &None, None, "plain", &None, true);
    assert_eq!(out, Ok(Vec::new()));
}

#[test]
fn test_find_requires() {
    let script = FileObservations {
        path: "tool.sh".to_string(),
        executable: true,
        elf: None,
        ldd_output: None,
        shebang: Some("/usr/bin/env".to_string()),
        interpreter_exists: true,
    };
    let plain = FileObservations {
        path: "README.md".to_string(),
        executable: false,
        elf: None,
        ldd_output: None,
        shebang: None,
        interpreter_exists: false,
    };
    let binary = FileObservations {
        path: "/bin/sh".to_string(),
        executable: true,
        elf: Some(ElfInfo {
            is_64bit: true,
            machine: 62,
            got_hash: false,
            got_gnu_hash: true,
        }),
        ldd_output: Some(LDD_REPORT.to_string()),
        shebang: None,
        interpreter_exists: false,
    };

    // The batch is the union of the files' requirement sets, sorted.
    let requires = find_requires(&vec![script.clone(), plain, binary.clone()]).unwrap();
    assert_eq!(
        requires,
        vec![
            "/usr/bin/env".to_string(),
            "libc.so.6()(64bit)".to_string(),
            "libc.so.6(GLIBC_2.2.5)(64bit)".to_string(),
            "libc.so.6(GLIBC_2.34)(64bit)".to_string(),
            "rtld(GNU_HASH)".to_string(),
        ]
    );

    // A binary whose report is missing fails the whole batch.
    let broken = FileObservations {
        ldd_output: None,
        ..binary
    };
    assert_eq!(
        find_requires(&vec![script, broken]),
        Err(AutoReqError::ProcessError("ldd".to_string()))
    );
}
