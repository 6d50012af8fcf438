//! Mode resolution, the discovery plan, and the requirement set's
//! accumulation.

use cargo_generate_rpm::auto_req::insert_require;
use cargo_generate_rpm::auto_req::merge_requires;
use cargo_generate_rpm::auto_req::plan_auto_req;
use cargo_generate_rpm::auto_req::rpm_find_requires_path;
use cargo_generate_rpm::auto_req::AutoReqMode;
use cargo_generate_rpm::auto_req::AutoReqPlan;
use cargo_generate_rpm::cli;

#[test]
fn test_auto_req() {
    let args = cli::Cli::default();
    assert_eq!(args.auto_req, cli::AutoReqMode::Auto);
    assert_eq!(cli::AutoReqModeParser::parse("auto"), cli::AutoReqMode::Auto);
    assert_eq!(cli::AutoReqModeParser::parse("builtin"), cli::AutoReqMode::Builtin);
    assert_eq!(
        cli::AutoReqModeParser::parse("find-requires"),
        cli::AutoReqMode::FindRequires
    );
    assert!(matches!(
        cli::AutoReqModeParser::parse("/usr/lib/rpm/find-requires"),
        cli::AutoReqMode::Script(v) if v == "/usr/lib/rpm/find-requires"
    ));
    assert_eq!(cli::AutoReqModeParser::parse("no"), cli::AutoReqMode::Disabled);
    assert_eq!(cli::AutoReqModeParser::parse("disabled"), cli::AutoReqMode::Disabled);
}

#[test]
fn test_from_cli_mode() {
    assert_eq!(AutoReqMode::from_cli(cli::AutoReqMode::Auto), AutoReqMode::Auto);
    assert_eq!(AutoReqMode::from_cli(cli::AutoReqMode::Disabled), AutoReqMode::Disabled);
    assert_eq!(AutoReqMode::from_cli(cli::AutoReqMode::Builtin), AutoReqMode::BuiltIn);
    assert_eq!(
        AutoReqMode::from_cli(cli::AutoReqMode::FindRequires),
        AutoReqMode::Script("/usr/lib/rpm/find-requires".to_string())
    );
    assert_eq!(
        AutoReqMode::from_cli(cli::AutoReqMode::Script("/opt/finder".to_string())),
        AutoReqMode::Script("/opt/finder".to_string())
    );
}

#[test]
fn test_disabled_mode_yields_nothing() {
    // Disabled yields no discovery work at all, whether or not the system
    // finder script exists, so any candidate list produces the empty set.
    assert_eq!(plan_auto_req(AutoReqMode::Disabled, true), AutoReqPlan::NoDiscovery);
    assert_eq!(plan_auto_req(AutoReqMode::Disabled, false), AutoReqPlan::NoDiscovery);
}

#[test]
fn test_auto_mode_resolution() {
    assert_eq!(
        plan_auto_req(AutoReqMode::Auto, true),
        AutoReqPlan::RunScript(rpm_find_requires_path().to_string())
    );
    assert_eq!(plan_auto_req(AutoReqMode::Auto, false), AutoReqPlan::RunBuiltin);
    assert_eq!(plan_auto_req(AutoReqMode::BuiltIn, true), AutoReqPlan::RunBuiltin);
    assert_eq!(
        plan_auto_req(AutoReqMode::Script("/opt/finder".to_string()), false),
        AutoReqPlan::RunScript("/opt/finder".to_string())
    );
}

#[test]
fn test_requirement_set_is_sorted_and_deduplicated() {
    let mut set: Vec<String> = Vec::new();
    insert_require(&mut set, "libz.so.1()(64bit)".to_string());
    insert_require(&mut set, "libc.so.6()(64bit)".to_string());
    insert_require(&mut set, "libz.so.1()(64bit)".to_string());
    insert_require(&mut set, "rtld(GNU_HASH)".to_string());
    assert_eq!(
        set,
        vec![
            "libc.so.6()(64bit)".to_string(),
            "libz.so.1()(64bit)".to_string(),
            "rtld(GNU_HASH)".to_string(),
        ]
    );
}

#[test]
fn test_discovery_idempotence() {
    // Merging a requirement set into itself changes nothing: a second run
    // over the same files reports the same set.
    let mut set: Vec<String> = Vec::new();
    insert_require(&mut set, "libc.so.6()(64bit)".to_string());
    insert_require(&mut set, "rtld(GNU_HASH)".to_string());
    let again = set.clone();
    merge_requires(&mut set, &again);
    assert_eq!(set, again);
}
