use cargo_llvm_lines::command::{is_whitespace, usize_text};
use cargo_llvm_lines::{
    cargo_arguments, ignore_cargo_err, select_ir_file, use_color, Coloring, LlvmLines, SortOrder,
};

fn options() -> LlvmLines {
    LlvmLines {
        sort: SortOrder::Lines,
        filter: None,
        files: Vec::new(),
        verbose: false,
        quiet: false,
        color: None,
        config: Vec::new(),
        nightly_only_flags: Vec::new(),
        help: false,
        version: false,
        package: None,
        lib: false,
        bin: None,
        example: None,
        test: None,
        bench: None,
        features: None,
        all_features: false,
        no_default_features: false,
        jobs: None,
        release: false,
        profile: None,
        target: None,
        target_dir: None,
        manifest_path: None,
        frozen: false,
        locked: false,
        offline: false,
        rest: Vec::new(),
    }
}

fn bytes(args: &[&str]) -> Vec<Vec<u8>> {
    args.iter().map(|a| a.as_bytes().to_vec()).collect()
}

#[test]
fn warning_summary_is_noise() {
    assert!(ignore_cargo_err("warning: `foo` (lib) generated 3 warnings"));
    assert!(ignore_cargo_err("warning: `foo` (lib) generated 1 warning\n"));
    assert!(ignore_cargo_err("warning: `foo` (bin \"x\") generated 12 warnings (run `cargo fix`)"));
}

#[test]
fn compile_errors_pass_through() {
    assert!(!ignore_cargo_err("error[E0308]: mismatched types"));
    assert!(!ignore_cargo_err("error: could not compile `foo` (lib) due to 2 previous errors"));
    assert!(!ignore_cargo_err("  --> src/lib.rs:3:5"));
}

#[test]
fn near_misses_pass_through() {
    assert!(!ignore_cargo_err("warning: `foo` (lib) generated x warnings"));
    assert!(!ignore_cargo_err("warning: `foo` (lib) generated  3 warnings"));
    assert!(!ignore_cargo_err("warning: `foo` (lib) generated 3warnings"));
    assert!(!ignore_cargo_err("foo generated 3 warnings"));
}

#[test]
fn errors_with_a_warning_count_pass_through() {
    assert!(!ignore_cargo_err(
        "error: could not compile `foo` (lib) due to 1 previous error; 2 warnings emitted"
    ));
    assert!(!ignore_cargo_err("warning: 2 warnings emitted"));
}

#[test]
fn decimal_text_of_usize() {
    assert_eq!(usize_text(0), "0");
    assert_eq!(usize_text(7), "7");
    assert_eq!(usize_text(10), "10");
    assert_eq!(usize_text(1234567890), "1234567890");
    assert_eq!(usize_text(usize::MAX), usize::MAX.to_string());
}

#[test]
fn whitespace_matches_std() {
    for u in 0..0x3100u32 {
        if let Some(c) = char::from_u32(u) {
            assert_eq!(is_whitespace(c), c.is_whitespace(), "U+{:04X}", u);
        }
    }
}

#[test]
fn blank_lines_are_noise() {
    assert!(ignore_cargo_err(""));
    assert!(ignore_cargo_err("   \t\n"));
    assert!(ignore_cargo_err("\u{a0}\u{3000}\r\n"));
}

#[test]
fn output_path_messages_are_noise() {
    assert!(ignore_cargo_err(
        "warning: ignoring specified output filename because multiple outputs were requested"
    ));
    assert!(ignore_cargo_err(
        "warning: ignoring specified output filename for 'link' output because multiple outputs were requested"
    ));
    assert!(ignore_cargo_err("warning: ignoring --out-dir flag due to -o flag"));
    assert!(ignore_cargo_err(
        "warning: due to multiple output types requested, the explicitly specified output file name will be adapted for each output type"
    ));
    assert!(ignore_cargo_err("warning: ignoring -C extra-filename flag due to -o flag"));
}

#[test]
fn minimal_invocation() {
    let args = cargo_arguments(&options(), b"/tmp/out/crate", false);
    assert_eq!(
        args,
        bytes(&[
            "rustc",
            "--color",
            "never",
            "--",
            "--emit=llvm-ir",
            "-Cno-prepopulate-passes",
            "-Cpasses=name-anon-globals",
            "-o",
            "/tmp/out/crate",
        ])
    );
}

#[test]
fn options_are_passed_through_in_order() {
    let mut opts = options();
    opts.verbose = true;
    opts.quiet = true;
    opts.config = vec!["a=1".to_string(), "b=2".to_string()];
    opts.nightly_only_flags = vec!["unstable-options".to_string()];
    opts.package = Some("pkg".to_string());
    opts.lib = true;
    opts.bin = Some("tool".to_string());
    opts.example = Some("ex".to_string());
    opts.test = Some("t".to_string());
    opts.bench = Some("bn".to_string());
    opts.features = Some("f1 f2".to_string());
    opts.all_features = true;
    opts.no_default_features = true;
    opts.jobs = Some(8);
    opts.release = true;
    opts.profile = Some("dev".to_string());
    opts.target = Some("x86_64-unknown-linux-gnu".to_string());
    opts.target_dir = Some(b"tgt".to_vec());
    opts.manifest_path = Some(b"Cargo.toml".to_vec());
    opts.frozen = true;
    opts.locked = true;
    opts.offline = true;
    opts.rest = vec![b"-Zprint".to_vec(), b"--cfg=x".to_vec()];
    // report-only options leave no trace
    opts.sort = SortOrder::Name;
    opts.filter = Some("x".to_string());
    opts.files = vec![b"a.ll".to_vec()];
    let args = cargo_arguments(&opts, b"out", true);
    assert_eq!(
        args,
        bytes(&[
            "rustc",
            "--verbose",
            "--quiet",
            "--color",
            "always",
            "--config",
            "a=1",
            "--config",
            "b=2",
            "-Zunstable-options",
            "--package",
            "pkg",
            "--lib",
            "--bin",
            "tool",
            "--example",
            "ex",
            "--test",
            "t",
            "--bench",
            "bn",
            "--features",
            "f1 f2",
            "--all-features",
            "--no-default-features",
            "--jobs",
            "8",
            "--release",
            "--profile",
            "dev",
            "--target",
            "x86_64-unknown-linux-gnu",
            "--target-dir",
            "tgt",
            "--manifest-path",
            "Cargo.toml",
            "--frozen",
            "--locked",
            "--offline",
            "--",
            "--emit=llvm-ir",
            "-Cno-prepopulate-passes",
            "-Cpasses=name-anon-globals",
            "-o",
            "out",
            "-Zprint",
            "--cfg=x",
        ])
    );
}

#[test]
fn non_utf8_paths_pass_unchanged() {
    let mut opts = options();
    opts.manifest_path = Some(b"dir\xff/Cargo.toml".to_vec());
    opts.rest = vec![b"--cfg=\xfe".to_vec()];
    let args = cargo_arguments(&opts, b"/tmp/\xfd", false);
    assert!(args.contains(&b"dir\xff/Cargo.toml".to_vec()));
    assert!(args.contains(&b"/tmp/\xfd".to_vec()));
    assert_eq!(args.last().unwrap(), b"--cfg=\xfe");
}

#[test]
fn job_count_is_written_in_decimal() {
    let mut opts = options();
    opts.jobs = Some(1024);
    let args = cargo_arguments(&opts, b"o", false);
    let i = args.iter().position(|a| a == b"--jobs").unwrap();
    assert_eq!(args[i + 1], b"1024");
}

#[test]
fn color_choice() {
    assert!(use_color(Some(Coloring::Always), true, false));
    assert!(!use_color(Some(Coloring::Never), false, true));
    assert!(use_color(Some(Coloring::Auto), false, true));
    assert!(use_color(None, false, true));
    assert!(!use_color(None, true, true));
    assert!(!use_color(None, false, false));
}

#[test]
fn first_ir_file_is_selected() {
    let names: Vec<String> = ["crate.o", ".ll", "a.lll", "crate.ll", "other.ll"]
        .iter()
        .map(|s| s.to_string())
        .collect();
    assert_eq!(select_ir_file(&names), Some(3));
    let none: Vec<String> = vec!["x.bc".to_string(), "ll".to_string()];
    assert_eq!(select_ir_file(&none), None);
    assert_eq!(select_ir_file(&vec!["..ll".to_string()]), Some(0));
}
