use bench_runner::command::build_command;
use bench_runner::command::file_placeholder;
use bench_runner::command::format_u64;
use bench_runner::command::interpolate;

#[test]
fn placeholder_token_is_stable() {
    assert_eq!(file_placeholder(), "@bench_file");
}

#[test]
fn interpolation_replaces_the_placeholder() {
    let cmd = interpolate("echo @bench_file", "/tmp/a.txt");
    assert_eq!(cmd, "echo /tmp/a.txt");
    assert!(cmd.contains("echo /tmp/a.txt"));
    assert!(!cmd.contains("@bench_file"));
}

#[test]
fn interpolation_replaces_every_occurrence() {
    let cmd = interpolate("cp @bench_file @bench_file.bak", "in.txt");
    assert_eq!(cmd, "cp in.txt in.txt.bak");
}

#[test]
fn interpolation_without_placeholder_is_identity() {
    let cmd = interpolate("true", "in.txt");
    assert_eq!(cmd, "true");
}

#[test]
fn interpolation_of_empty_template_is_empty() {
    let cmd = interpolate("", "in.txt");
    assert_eq!(cmd, "");
}

#[test]
fn decimal_formatting_is_exact() {
    assert_eq!(format_u64(0), "0");
    assert_eq!(format_u64(7), "7");
    assert_eq!(format_u64(10), "10");
    assert_eq!(format_u64(409), "409");
    assert_eq!(format_u64(18446744073709551615), "18446744073709551615");
}

#[test]
fn built_command_has_timeout_prefix_and_no_residue() {
    let cmd = build_command(1, "/tmp/a.txt", "echo @bench_file");
    assert_eq!(cmd, "timeout 1s echo /tmp/a.txt");
    assert!(cmd.contains("echo /tmp/a.txt"));
    assert!(!cmd.contains("@bench_file"));
}

#[test]
fn built_command_uses_the_given_budget() {
    let cmd = build_command(10, "f1", "test @bench_file");
    assert_eq!(cmd, "timeout 10s test f1");
}
