//! What a run is configured with: the names of the directories that count as
//! artifacts, and the units in which a size can be written.

use vstd::prelude::*;
use vstd::string::StrSliceExecFns;
use vstd::string::StringExecFns;
use vstd::string::StringSliceAdditionalSpecFns;
use crate::path::FsPath;
use crate::scan::name_views;
use crate::tui::TuiOptions;

verus! {

/// The size from which a repository is shown where nothing else is asked
/// for: one mebibyte.
pub const DEFAULT_MIN_SIZE_BYTES: u64 = 1024 * 1024;

/// The names of the directories that count as artifacts where nothing else
/// is asked for.
pub open spec fn default_names() -> Seq<Seq<u8>> {
    seq![
        "target".spec_bytes(),
        "node_modules".spec_bytes(),
        "dist".spec_bytes(),
        "build".spec_bytes(),
        "out".spec_bytes(),
        ".next".spec_bytes(),
        ".nuxt".spec_bytes(),
        ".svelte-kit".spec_bytes(),
        ".astro".spec_bytes(),
        ".vercel".spec_bytes(),
        ".turbo".spec_bytes(),
        ".cache".spec_bytes(),
        ".parcel-cache".spec_bytes(),
        ".vite".spec_bytes(),
        ".angular".spec_bytes(),
        ".gradle".spec_bytes(),
        ".terraform".spec_bytes(),
        ".serverless".spec_bytes(),
        ".dart_tool".spec_bytes(),
        ".venv".spec_bytes(),
        "venv".spec_bytes(),
        ".tox".spec_bytes(),
        ".direnv".spec_bytes(),
        "bin".spec_bytes(),
        "obj".spec_bytes(),
        "coverage".spec_bytes(),
        ".pytest_cache".spec_bytes(),
        "__pycache__".spec_bytes(),
        ".mypy_cache".spec_bytes(),
        ".ruff_cache".spec_bytes(),
        "tmp".spec_bytes(),
    ]
}

/// The names of the directories that count as artifacts where nothing else
/// is asked for.
pub fn default_artifact_dir_names() -> (names: Vec<Vec<u8>>)
    ensures
        name_views(names@) == default_names(),
{
    let mut names: Vec<Vec<u8>> = Vec::new();
    names.push("target".as_bytes_vec());
    names.push("node_modules".as_bytes_vec());
    names.push("dist".as_bytes_vec());
    names.push("build".as_bytes_vec());
    names.push("out".as_bytes_vec());
    names.push(".next".as_bytes_vec());
    names.push(".nuxt".as_bytes_vec());
    names.push(".svelte-kit".as_bytes_vec());
    names.push(".astro".as_bytes_vec());
    names.push(".vercel".as_bytes_vec());
    names.push(".turbo".as_bytes_vec());
    names.push(".cache".as_bytes_vec());
    names.push(".parcel-cache".as_bytes_vec());
    names.push(".vite".as_bytes_vec());
    names.push(".angular".as_bytes_vec());
    names.push(".gradle".as_bytes_vec());
    names.push(".terraform".as_bytes_vec());
    names.push(".serverless".as_bytes_vec());
    names.push(".dart_tool".as_bytes_vec());
    names.push(".venv".as_bytes_vec());
    names.push("venv".as_bytes_vec());
    names.push(".tox".as_bytes_vec());
    names.push(".direnv".as_bytes_vec());
    names.push("bin".as_bytes_vec());
    names.push("obj".as_bytes_vec());
    names.push("coverage".as_bytes_vec());
    names.push(".pytest_cache".as_bytes_vec());
    names.push("__pycache__".as_bytes_vec());
    names.push(".mypy_cache".as_bytes_vec());
    names.push(".ruff_cache".as_bytes_vec());
    names.push("tmp".as_bytes_vec());
    proof {
        assert(name_views(names@) =~= default_names());
    }
    names
}

/// Why a run cannot start.
#[derive(Debug, Clone, Copy, PartialEq, Eq, Structural)]
pub enum ConfigError {
    /// No directory name counts as an artifact.
    NoArtifactNames,
}

impl ConfigError {
    /// What to tell the operator.
    pub fn message(&self) -> (text: String)
        ensures
            text@ == "no artifact directory names configured"@,
    {
        String::from_str("no artifact directory names configured")
    }
}

/// The names, each as its bytes in UTF-8.
pub open spec fn text_bytes(names: Seq<String>) -> Seq<Seq<u8>> {
    names.map_values(|n: String| vstd::utf8::encode_utf8(n@))
}

/// The names that a run counts as artifacts: the default names unless the
/// operator has switched them off, and the names that the operator has
/// added.
pub open spec fn configured_names(no_defaults: bool, extra: Seq<String>) -> Seq<Seq<u8>> {
    if no_defaults {
        text_bytes(extra)
    } else {
        default_names() + text_bytes(extra)
    }
}

/// Puts together the names that a run counts as artifacts. A run without
/// any such name is refused.
pub fn artifact_dir_names(no_defaults: bool, extra: &Vec<String>) -> (names: Result<
    Vec<Vec<u8>>,
    ConfigError,
>)
    ensures
        match names {
            Ok(list) => name_views(list@) == configured_names(no_defaults, extra@) && list@.len()
                > 0,
            Err(error) => error == ConfigError::NoArtifactNames && configured_names(
                no_defaults,
                extra@,
            ).len() == 0,
        },
{
    let mut names: Vec<Vec<u8>> = if no_defaults {
        Vec::new()
    } else {
        default_artifact_dir_names()
    };
    let ghost start = name_views(names@);
    let mut i: usize = 0;
    proof {
        assert(text_bytes(extra@).subrange(0, 0) =~= Seq::empty());
        assert(start + Seq::<Seq<u8>>::empty() =~= start);
    }
    while i < extra.len()
        invariant
            i <= extra@.len(),
            name_views(names@) == start + text_bytes(extra@).subrange(0, i as int),
        decreases extra@.len() - i,
    {
        let ghost before = name_views(names@);
        let name = extra[i].as_str().as_bytes_vec();
        names.push(name);
        proof {
            let all = text_bytes(extra@);
            assert(name_views(names@) =~= before.push(all[i as int]));
            assert(all.subrange(0, i + 1) =~= all.subrange(0, i as int).push(all[i as int]));
        }
        i += 1;
    }
    proof {
        let all = text_bytes(extra@);
        assert(all.subrange(0, all.len() as int) =~= all);
        if no_defaults {
            assert(start =~= Seq::empty());
            assert(start + all =~= all);
        }
    }
    if names.len() == 0 {
        Err(ConfigError::NoArtifactNames)
    } else {
        Ok(names)
    }
}

/// The number of bytes that a unit of size stands for; the unit is given in
/// lower case. Units on a `b` count in thousands, units on `ib` in powers of
/// 1024; no unit means bytes.
pub open spec fn multiplier_of(unit: Seq<char>) -> Option<u64> {
    if unit == ""@ || unit == "b"@ {
        Some(1)
    } else if unit == "k"@ || unit == "kb"@ {
        Some(1_000)
    } else if unit == "m"@ || unit == "mb"@ {
        Some(1_000_000)
    } else if unit == "g"@ || unit == "gb"@ {
        Some(1_000_000_000)
    } else if unit == "t"@ || unit == "tb"@ {
        Some(1_000_000_000_000)
    } else if unit == "p"@ || unit == "pb"@ {
        Some(1_000_000_000_000_000)
    } else if unit == "kib"@ {
        Some(0x400)
    } else if unit == "mib"@ {
        Some(0x10_0000)
    } else if unit == "gib"@ {
        Some(0x4000_0000)
    } else if unit == "tib"@ {
        Some(0x100_0000_0000)
    } else if unit == "pib"@ {
        Some(0x4_0000_0000_0000)
    } else {
        None
    }
}

/// Whether `unit` is written `name`.
fn is_unit(unit: &String, name: &str) -> (r: bool)
    ensures
        r == (unit@ == name@),
{
    let other = String::from_str(name);
    *unit == other
}

/// The number of bytes that a unit of size stands for, or `None` for a unit
/// that is not known.
pub fn unit_multiplier(unit: &String) -> (r: Option<u64>)
    ensures
        r == multiplier_of(unit@),
{
    if is_unit(unit, "") || is_unit(unit, "b") {
        Some(1)
    } else if is_unit(unit, "k") || is_unit(unit, "kb") {
        Some(1_000)
    } else if is_unit(unit, "m") || is_unit(unit, "mb") {
        Some(1_000_000)
    } else if is_unit(unit, "g") || is_unit(unit, "gb") {
        Some(1_000_000_000)
    } else if is_unit(unit, "t") || is_unit(unit, "tb") {
        Some(1_000_000_000_000)
    } else if is_unit(unit, "p") || is_unit(unit, "pb") {
        Some(1_000_000_000_000_000)
    } else if is_unit(unit, "kib") {
        Some(0x400)
    } else if is_unit(unit, "mib") {
        Some(0x10_0000)
    } else if is_unit(unit, "gib") {
        Some(0x4000_0000)
    } else if is_unit(unit, "tib") {
        Some(0x100_0000_0000)
    } else if is_unit(unit, "pib") {
        Some(0x4_0000_0000_0000)
    } else {
        None
    }
}

/// A size in bytes, as given on the command line.
#[derive(Debug, Clone, Copy, PartialEq, Eq, Structural)]
pub struct ByteSize(pub u64);

impl ByteSize {
    /// The size in bytes.
    pub fn as_u64(self) -> (bytes: u64)
        ensures
            bytes == self.0,
    {
        self.0
    }
}

/// What every command takes.
#[derive(Debug)]
pub struct CommonArgs {
    /// Where the scan starts.
    pub root: FsPath,
    /// The number of threads to scan with; as many as the machine suggests
    /// where none is given.
    pub threads: Option<usize>,
    /// Names of artifact directories, besides the default ones.
    pub artifacts: Vec<String>,
    /// Leave the default names out.
    pub no_default_artifacts: bool,
}

/// What the interactive session takes.
#[derive(Debug, Clone, Copy, PartialEq, Eq, Structural)]
pub struct TuiArgs {
    pub stale_days: u64,
    pub min_size: ByteSize,
    pub clean_all: bool,
    pub dry_run: bool,
}

/// What to do.
#[derive(Debug, Clone, Copy, PartialEq, Eq, Structural)]
pub enum Command {
    /// Scan, and print the report.
    Scan,
    /// Scan, and let the operator choose what to clean.
    Tui(TuiArgs),
}

/// The command line.
#[derive(Debug)]
pub struct Cli {
    pub common: CommonArgs,
    pub command: Option<Command>,
}

/// Days after which an artifact counts as stale where nothing else is asked
/// for.
pub const DEFAULT_STALE_DAYS: u64 = 30;

/// What the interactive session takes where nothing is said.
pub open spec fn default_tui_args() -> TuiArgs {
    TuiArgs {
        stale_days: DEFAULT_STALE_DAYS,
        min_size: ByteSize(DEFAULT_MIN_SIZE_BYTES),
        clean_all: false,
        dry_run: false,
    }
}

/// What a run does, once the command line is read.
#[derive(Debug)]
pub enum RunPlan {
    /// Scan with the given artifact names, and print the report.
    Scan { artifact_dir_names: Vec<Vec<u8>>, threads: Option<usize> },
    /// Scan with the given artifact names, in an interactive session with
    /// the given options.
    Tui { artifact_dir_names: Vec<Vec<u8>>, threads: Option<usize>, options: TuiOptions },
}

/// The options of the session that the arguments ask for.
pub open spec fn session_options(args: TuiArgs) -> TuiOptions {
    TuiOptions { min_size_bytes: args.min_size.0, dry_run: args.dry_run }
}

/// What the command line asks for. Without a command the interactive
/// session is meant, with its default settings. A command line that leaves
/// no artifact name is refused.
pub open spec fn planned(cli: Cli, plan: Result<RunPlan, ConfigError>) -> bool {
    let names = configured_names(cli.common.no_default_artifacts, cli.common.artifacts@);
    let command = match cli.command {
        Some(given) => given,
        None => Command::Tui(default_tui_args()),
    };
    if names.len() == 0 {
        plan == Err::<RunPlan, ConfigError>(ConfigError::NoArtifactNames)
    } else {
        match command {
            Command::Scan => plan matches Ok(RunPlan::Scan { artifact_dir_names, threads })
                && name_views(artifact_dir_names@) == names && threads == cli.common.threads,
            Command::Tui(args) => plan matches Ok(
                RunPlan::Tui { artifact_dir_names, threads, options },
            ) && name_views(artifact_dir_names@) == names && threads == cli.common.threads
                && options == session_options(args),
        }
    }
}

/// Decides what a run does from its command line.
pub fn run(cli: Cli) -> (plan: Result<RunPlan, ConfigError>)
    ensures
        planned(cli, plan),
{
    let artifact_dir_names = match artifact_dir_names(
        cli.common.no_default_artifacts,
        &cli.common.artifacts,
    ) {
        Ok(names) => names,
        Err(error) => {
            return Err(error);
        },
    };
    let command = match cli.command {
        Some(given) => given,
        None => Command::Tui(
            TuiArgs {
                stale_days: DEFAULT_STALE_DAYS,
                min_size: ByteSize(DEFAULT_MIN_SIZE_BYTES),
                clean_all: false,
                dry_run: false,
            },
        ),
    };
    let threads = cli.common.threads;
    match command {
        Command::Scan => Ok(RunPlan::Scan { artifact_dir_names, threads }),
        Command::Tui(args) => Ok(
            RunPlan::Tui {
                artifact_dir_names,
                threads,
                options: TuiOptions {
                    min_size_bytes: args.min_size.as_u64(),
                    dry_run: args.dry_run,
                },
            },
        ),
    }
}

} // verus!
