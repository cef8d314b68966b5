use vstd::prelude::*;

use crate::text::{chars_eq, chars_of, first_index, first_index_of, sub_chars};

verus! {

/// The environment variables through which the flags reach the browser's
/// child processes.
#[derive(Clone, Copy, Debug, PartialEq, Eq, Structural)]
pub enum EnvVar {
    Debug,
    Bitmap,
    Adblock,
    NoImages,
    Graphics,
    ShellMode,
    Vim,
}

/// The name of an environment variable.
pub open spec fn env_name(v: EnvVar) -> Seq<char> {
    match v {
        EnvVar::Debug => "CARBONYL_ENV_DEBUG"@,
        EnvVar::Bitmap => "CARBONYL_ENV_BITMAP"@,
        EnvVar::Adblock => "CARBONYL_ENV_ADBLOCK"@,
        EnvVar::NoImages => "CARBONYL_ENV_NO_IMAGES"@,
        EnvVar::Graphics => "CARBONYL_ENV_GRAPHICS"@,
        EnvVar::ShellMode => "CARBONYL_ENV_SHELL_MODE"@,
        EnvVar::Vim => "CARBONYL_ENV_VIM"@,
    }
}

impl EnvVar {
    pub fn as_str(&self) -> (s: &'static str)
        ensures
            s@ == env_name(*self),
    {
        match self {
            EnvVar::Debug => "CARBONYL_ENV_DEBUG",
            EnvVar::Bitmap => "CARBONYL_ENV_BITMAP",
            EnvVar::Adblock => "CARBONYL_ENV_ADBLOCK",
            EnvVar::NoImages => "CARBONYL_ENV_NO_IMAGES",
            EnvVar::Graphics => "CARBONYL_ENV_GRAPHICS",
            EnvVar::ShellMode => "CARBONYL_ENV_SHELL_MODE",
            EnvVar::Vim => "CARBONYL_ENV_VIM",
        }
    }
}

/// What the command line asks the program to do.
#[derive(Clone, Copy, Debug, PartialEq, Eq, Structural)]
pub enum CommandLineProgram {
    Main,
    Help,
    Version,
}

/// The on/off options, one per environment variable.
#[derive(Clone, Copy, Debug, PartialEq, Eq, Structural)]
pub struct Switches {
    pub debug: bool,
    pub bitmap: bool,
    pub adblock: bool,
    pub no_images: bool,
    pub graphics: bool,
    pub vim: bool,
    pub shell_mode: bool,
}

/// The command line, read: the raw values given to `--fps` and `--zoom` in
/// order (the last one that parses as a number wins), the options, the
/// program, and the environment variables to set to `1`.
pub struct ParsedArgs {
    pub fps_values: Vec<String>,
    pub zoom_values: Vec<String>,
    pub switches: Switches,
    pub program: CommandLineProgram,
    pub exported: Switches,
}

/// The key of an argument: what comes before its first `=`.
pub open spec fn arg_key(a: Seq<char>) -> Seq<char> {
    match first_index_of(a, '=') {
        Some(i) => a.take(i),
        None => a,
    }
}

/// The value of an argument: what follows its first `=`, up to the next.
pub open spec fn arg_value(a: Seq<char>) -> Option<Seq<char>> {
    match first_index_of(a, '=') {
        Some(i) => Some(arg_key(a.skip(i + 1))),
        None => None,
    }
}

/// Some argument has one of the two keys.
pub open spec fn has_key(args: Seq<Seq<char>>, short: Seq<char>, long: Seq<char>) -> bool {
    exists|i: int| 0 <= i < args.len() && (arg_key(#[trigger] args[i]) == short || arg_key(args[i]) == long)
}

/// The values given to an option with one of the two keys, in order.
pub open spec fn key_values(args: Seq<Seq<char>>, short: Seq<char>, long: Seq<char>) -> Seq<Seq<char>>
    decreases args.len(),
{
    if args.len() == 0 {
        Seq::empty()
    } else {
        let a = args.last();
        key_values(args.drop_last(), short, long) + if (arg_key(a) == short || arg_key(a) == long)
            && arg_value(a) is Some {
            seq![arg_value(a)->0]
        } else {
            Seq::empty()
        }
    }
}

/// The program the last `--help` or `--version` asks for.
pub open spec fn program_of(args: Seq<Seq<char>>) -> CommandLineProgram
    decreases args.len(),
{
    if args.len() == 0 {
        CommandLineProgram::Main
    } else {
        let k = arg_key(args.last());
        if k == "-h"@ || k == "--help"@ {
            CommandLineProgram::Help
        } else if k == "-v"@ || k == "--version"@ {
            CommandLineProgram::Version
        } else {
            program_of(args.drop_last())
        }
    }
}

/// The options the arguments turn on.
pub open spec fn arg_switches(args: Seq<Seq<char>>) -> Switches {
    Switches {
        debug: has_key(args, "-d"@, "--debug"@),
        bitmap: has_key(args, "-b"@, "--bitmap"@),
        adblock: has_key(args, "--adblock"@, "--adblock"@),
        no_images: has_key(args, "--no-images"@, "--no-images"@),
        graphics: has_key(args, "-g"@, "--graphics"@),
        vim: has_key(args, "--vim"@, "--vim"@),
        shell_mode: false,
    }
}

/// The options in effect: those of the arguments or of the environment;
/// graphics without vim needs the page text in the bitmap.
pub open spec fn effective_switches(a: Switches, env: Switches) -> Switches {
    let graphics = a.graphics || env.graphics;
    let vim = a.vim || env.vim;
    Switches {
        debug: a.debug || env.debug,
        bitmap: a.bitmap || env.bitmap || (graphics && !vim),
        adblock: a.adblock || env.adblock,
        no_images: a.no_images || env.no_images,
        graphics,
        vim,
        shell_mode: env.shell_mode,
    }
}

/// The variables set to `1`: those of the options given as arguments, and
/// the bitmap one when graphics needs it.
pub open spec fn exported_switches(a: Switches, env: Switches) -> Switches {
    let e = effective_switches(a, env);
    Switches { bitmap: a.bitmap || (e.graphics && !e.vim), ..a }
}

pub open spec fn strings_view(v: Seq<String>) -> Seq<Seq<char>> {
    v.map_values(|s: String| s@)
}

/// The key and the value of an argument (see `arg_key`, `arg_value`).
fn split_arg(a: &Vec<char>) -> (r: (Vec<char>, Option<Vec<char>>))
    ensures
        r.0@ == arg_key(a@),
        match r.1 {
            Some(v) => arg_value(a@) == Some(v@),
            None => arg_value(a@) is None,
        },
{
    let n = a.len();
    match first_index(a, '=') {
        Some(i) => {
            let key = sub_chars(a, 0, i);
            let rest = sub_chars(a, i + 1, a.len());
            assert(rest@ =~= a@.skip(i + 1));
            let value = match first_index(&rest, '=') {
                Some(j) => sub_chars(&rest, 0, j),
                None => rest,
            };
            (key, Some(value))
        },
        None => (sub_chars(a, 0, a.len()), None),
    }
}

fn key_is(key: &Vec<char>, short: &str, long: &str) -> (b: bool)
    ensures
        b == (key@ == short@ || key@ == long@),
{
    chars_eq(key, &chars_of(short)) || chars_eq(key, &chars_of(long))
}

/// Reads the arguments (without the program name) given the options set in
/// the environment.
pub fn parse_args(args: &Vec<String>, env: Switches) -> (p: ParsedArgs)
    ensures
        strings_view(p.fps_values@) == key_values(strings_view(args@), "-f"@, "--fps"@),
        strings_view(p.zoom_values@) == key_values(strings_view(args@), "-z"@, "--zoom"@),
        p.switches == effective_switches(arg_switches(strings_view(args@)), env),
        p.exported == exported_switches(arg_switches(strings_view(args@)), env),
        p.program == program_of(strings_view(args@)),
{
    let ghost av = strings_view(args@);
    let mut fps_values: Vec<String> = Vec::new();
    let mut zoom_values: Vec<String> = Vec::new();
    let mut a = Switches {
        debug: false,
        bitmap: false,
        adblock: false,
        no_images: false,
        graphics: false,
        vim: false,
        shell_mode: false,
    };
    let mut program = CommandLineProgram::Main;
    let mut i: usize = 0;
    assert(av.take(0) =~= Seq::<Seq<char>>::empty());
    while i < args.len()
        invariant
            av == strings_view(args@),
            i <= av.len(),
            strings_view(fps_values@) == key_values(av.take(i as int), "-f"@, "--fps"@),
            strings_view(zoom_values@) == key_values(av.take(i as int), "-z"@, "--zoom"@),
            a == arg_switches(av.take(i as int)),
            program == program_of(av.take(i as int)),
        decreases av.len() - i,
    {
        let arg = chars_of(args[i].as_str());
        let (key, value) = split_arg(&arg);
        let ghost prev = av.take(i as int);
        let ghost next = av.take(i + 1);
        proof {
            assert(next.drop_last() == prev);
            assert(next.last() == av[i as int]);
            assert(av[i as int] == arg@);
        }
        let is_fps = key_is(&key, "-f", "--fps");
        let is_zoom = key_is(&key, "-z", "--zoom");
        match &value {
            Some(v) => {
                if is_fps {
                    fps_values.push(crate::text::string_from_chars(v));
                }
                if is_zoom {
                    zoom_values.push(crate::text::string_from_chars(v));
                }
            },
            None => {},
        }
        assert(strings_view(fps_values@) =~= key_values(next, "-f"@, "--fps"@));
        assert(strings_view(zoom_values@) =~= key_values(next, "-z"@, "--zoom"@));
        let d = key_is(&key, "-d", "--debug");
        let b = key_is(&key, "-b", "--bitmap");
        let ad = key_is(&key, "--adblock", "--adblock");
        let ni = key_is(&key, "--no-images", "--no-images");
        let g = key_is(&key, "-g", "--graphics");
        let vm = key_is(&key, "--vim", "--vim");
        a = Switches {
            debug: a.debug || d,
            bitmap: a.bitmap || b,
            adblock: a.adblock || ad,
            no_images: a.no_images || ni,
            graphics: a.graphics || g,
            vim: a.vim || vm,
            shell_mode: false,
        };
        proof {
            assert forall|s: Seq<char>, l: Seq<char>| has_key(next, s, l) == (has_key(prev, s, l) || (
            arg_key(next.last()) == s || arg_key(next.last()) == l)) by {
                if has_key(next, s, l) {
                    let k = choose|k: int| 0 <= k < next.len() && (arg_key(#[trigger] next[k]) == s
                        || arg_key(next[k]) == l);
                    if k < prev.len() {
                        assert(prev[k] == next[k]);
                    }
                }
                if has_key(prev, s, l) {
                    let k = choose|k: int| 0 <= k < prev.len() && (arg_key(#[trigger] prev[k]) == s
                        || arg_key(prev[k]) == l);
                    assert(next[k] == prev[k]);
                }
                if arg_key(next.last()) == s || arg_key(next.last()) == l {
                    assert(next[next.len() - 1] == next.last());
                }
            }
        }
        if key_is(&key, "-h", "--help") {
            program = CommandLineProgram::Help;
        } else if key_is(&key, "-v", "--version") {
            program = CommandLineProgram::Version;
        }
        i = i + 1;
    }
    assert(av.take(av.len() as int) =~= av);
    let graphics = a.graphics || env.graphics;
    let vim = a.vim || env.vim;
    let needs_bitmap = graphics && !vim;
    let switches = Switches {
        debug: a.debug || env.debug,
        bitmap: a.bitmap || env.bitmap || needs_bitmap,
        adblock: a.adblock || env.adblock,
        no_images: a.no_images || env.no_images,
        graphics,
        vim,
        shell_mode: env.shell_mode,
    };
    let exported = Switches { bitmap: a.bitmap || needs_bitmap, ..a };
    ParsedArgs { fps_values, zoom_values, switches, program, exported }
}

/// Graphics without vim always draws the page text into the bitmap,
/// whatever the arguments and the environment.
pub proof fn lemma_graphics_implies_bitmap(a: Switches, env: Switches)
    requires
        effective_switches(a, env).graphics,
        !effective_switches(a, env).vim,
    ensures
        effective_switches(a, env).bitmap,
        exported_switches(a, env).bitmap,
{
}

} // verus!
