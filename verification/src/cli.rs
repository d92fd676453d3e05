//! From the command line to the sources of the configuration.

use crate::config::{Config, ConfigError};
use crate::text::texts;
use vstd::prelude::*;
use vstd::string::StringExecFns;

verus! {

/// Check or fix license notices
#[derive(Debug, Clone, PartialEq)]
pub struct Cli {
    /// Attempt fix the license notice on the files
    pub fix: bool,
    /// In inline config mode, specify the copyright holder
    pub holder: Option<String>,
    /// In inline config mode, specify the SPDX ID for the license
    pub license: Option<String>,
    /// Paths to config files, or in inline config mode, glob patterns for source files
    /// to apply the license notice.
    pub paths: Vec<String>,
}

/// Where the configuration of a run comes from.
#[derive(Debug, Clone, PartialEq, Eq)]
pub enum ConfigSource {
    /// The configuration itself, from a holder, a license and globs given
    /// on the command line.
    Inline(Config),
    /// The config files to build and merge, in this order.
    Files(Vec<String>),
}

/// Convert the CLI args into the sources of the configuration object.
///
/// With a holder and a license, the paths are globs and make the
/// configuration; this is an error where a default config file is present.
/// Otherwise the paths name config files, and the default config file stands
/// in where there are none. The holder, the license and the paths are taken
/// out of the args, but for the paths where the call fails.
pub fn config_from_cli(args: &mut Cli, default_config: Option<&str>) -> (r: Result<
    ConfigSource,
    ConfigError,
>)
    ensures
        final(args).fix == old(args).fix,
        final(args).holder is None,
        final(args).license is None,
        r is Ok ==> final(args).paths@.len() == 0,
        r is Err ==> final(args).paths == old(args).paths,
        old(args).holder is Some && old(args).license is Some ==> match default_config {
            Some(path) => (r matches Err(ConfigError::InlineWithConfigFile(found)) && found@
                == path@),
            None => (r matches Ok(ConfigSource::Inline(config)) && config.wf() && (forall|
                glob: Seq<char>,
            |
                config@.dom().contains(glob) <==> exists|i: int|
                    0 <= i < old(args).paths@.len() && (#[trigger] old(args).paths@[i])@ == glob)
                && (forall|glob: Seq<char>|
                config@.dom().contains(glob) ==> config@[glob] == (
                    old(args).holder.unwrap()@,
                    old(args).license.unwrap()@,
                ))),
        },
        !(old(args).holder is Some && old(args).license is Some) ==> if old(args).paths@.len()
            > 0 {
            (r matches Ok(ConfigSource::Files(files)) && files == old(args).paths)
        } else {
            match default_config {
                Some(path) => (r matches Ok(ConfigSource::Files(files)) && texts(files@)
                    == seq![path@]),
                None => r matches Err(ConfigError::NoConfig),
            }
        },
{
    let mut holder: Option<String> = None;
    let mut license: Option<String> = None;
    std::mem::swap(&mut args.holder, &mut holder);
    std::mem::swap(&mut args.license, &mut license);
    match (holder, license) {
        (Some(holder), Some(license)) => {
            if let Some(config_path) = default_config {
                return Err(ConfigError::InlineWithConfigFile(String::from_str(config_path)));
            }
            let mut paths: Vec<String> = Vec::new();
            std::mem::swap(&mut args.paths, &mut paths);
            Ok(ConfigSource::Inline(Config::new(holder, license, paths)))
        },
        _ => {
            let mut paths: Vec<String> = Vec::new();
            if args.paths.len() == 0 {
                let Some(config_path) = default_config else {
                    return Err(ConfigError::NoConfig);
                };
                paths.push(String::from_str(config_path));
                assert(texts(paths@) =~= seq![config_path@]);
            } else {
                std::mem::swap(&mut args.paths, &mut paths);
            }
            Ok(ConfigSource::Files(paths))
        },
    }
}

} // verus!
