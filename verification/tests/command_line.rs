use carbonyl::cli::{parse_args, CommandLineProgram, EnvVar, Switches};

fn none() -> Switches {
    Switches {
        debug: false,
        bitmap: false,
        adblock: false,
        no_images: false,
        graphics: false,
        vim: false,
        shell_mode: false,
    }
}

fn args(a: &[&str]) -> Vec<String> {
    a.iter().map(|s| s.to_string()).collect()
}

#[test]
fn env_var_names() {
    assert_eq!(EnvVar::Debug.as_str(), "CARBONYL_ENV_DEBUG");
    assert_eq!(EnvVar::Bitmap.as_str(), "CARBONYL_ENV_BITMAP");
    assert_eq!(EnvVar::Adblock.as_str(), "CARBONYL_ENV_ADBLOCK");
    assert_eq!(EnvVar::NoImages.as_str(), "CARBONYL_ENV_NO_IMAGES");
    assert_eq!(EnvVar::Graphics.as_str(), "CARBONYL_ENV_GRAPHICS");
    assert_eq!(EnvVar::ShellMode.as_str(), "CARBONYL_ENV_SHELL_MODE");
    assert_eq!(EnvVar::Vim.as_str(), "CARBONYL_ENV_VIM");
}

#[test]
fn no_arguments() {
    let p = parse_args(&args(&[]), none());
    assert_eq!(p.switches, none());
    assert_eq!(p.exported, none());
    assert_eq!(p.program, CommandLineProgram::Main);
    assert!(p.fps_values.is_empty());
    assert!(p.zoom_values.is_empty());
}

#[test]
fn numeric_options_keep_their_raw_values() {
    let p = parse_args(&args(&["--fps=30", "-z=150", "-f", "-f=12=5", "--zoom=x"]), none());
    assert_eq!(p.fps_values, vec!["30", "12"]);
    assert_eq!(p.zoom_values, vec!["150", "x"]);
}

#[test]
fn switches_from_arguments() {
    let p = parse_args(&args(&["-d", "--adblock", "--no-images", "-b", "url"]), none());
    assert!(p.switches.debug && p.switches.adblock && p.switches.no_images && p.switches.bitmap);
    assert!(!p.switches.graphics && !p.switches.vim);
    assert_eq!(p.exported, p.switches);
    let q = parse_args(&args(&["--debug=1", "--bitmap"]), none());
    assert!(q.switches.debug && q.switches.bitmap);
}

#[test]
fn graphics_without_vim_forces_bitmap() {
    let p = parse_args(&args(&["-g"]), none());
    assert!(p.switches.graphics && p.switches.bitmap);
    assert!(p.exported.graphics && p.exported.bitmap);
    let q = parse_args(&args(&["--graphics", "--vim"]), none());
    assert!(q.switches.graphics && q.switches.vim && !q.switches.bitmap);
    assert!(!q.exported.bitmap);
    let env = Switches { graphics: true, ..none() };
    let r = parse_args(&args(&[]), env);
    assert!(r.switches.bitmap);
    assert!(r.exported.bitmap && !r.exported.graphics);
}

#[test]
fn environment_switches_apply_but_are_not_exported() {
    let env = Switches { debug: true, shell_mode: true, vim: true, ..none() };
    let p = parse_args(&args(&[]), env);
    assert!(p.switches.debug && p.switches.shell_mode && p.switches.vim);
    assert_eq!(p.exported, none());
    let q = parse_args(&args(&["--shell-mode"]), none());
    assert!(!q.switches.shell_mode);
}

#[test]
fn last_help_or_version_wins() {
    assert_eq!(parse_args(&args(&["-h"]), none()).program, CommandLineProgram::Help);
    assert_eq!(parse_args(&args(&["--help", "-v"]), none()).program, CommandLineProgram::Version);
    assert_eq!(parse_args(&args(&["--version", "x", "--help"]), none()).program, CommandLineProgram::Help);
    assert_eq!(parse_args(&args(&["-hv"]), none()).program, CommandLineProgram::Main);
}
