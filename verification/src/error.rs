//! The errors that the library's decisions end in.

use vstd::prelude::*;
use crate::placeholder::strings_view;
use crate::registry::{join_strings, join_with};
use crate::text::owned;

verus! {

/// Why an operation was refused.
pub enum PmError {
    /// `HOME` is not set.
    HomeNotSet,
    /// The registry index file does not exist.
    RegistryNotFound { path: String },
    /// No package of this name is in the registry.
    PackageNotFound { name: String },
    /// The package names no repository and none was given.
    NoRepo { package: String },
    /// The package lacks the section that its type needs.
    MissingSection { package: String, section: String },
    /// The package's type cannot be installed.
    UnsupportedKind { package: String, kind: String },
    /// The package is not an MCP package.
    NotMcpPackage { package: String, kind: String },
    /// A script path has no file name.
    InvalidScriptPath { path: String },
    /// The package is already installed.
    AlreadyInstalled { package: String },
    /// A package path is absolute or climbs out with `..`.
    UnsafePath { path: String },
    /// A script package lists no files.
    NoScriptFiles { package: String },
    /// A directory to delete lies outside the managed root.
    NotManagedPath { path: String },
    /// The whole `mcp-servers` directory would be deleted.
    WholeMcpDir,
    /// A whole managed data directory would be deleted.
    WholeDataDir { path: String },
    /// A file to delete lies outside the managed scripts directory.
    NotManagedFile { path: String },
    /// The package is not installed.
    NotInstalled { name: String },
    /// None of the names given is installed.
    NothingToUpgrade,
    /// An installed MCP package records no target directory.
    NoTargetDir { package: String },
    /// An installed package records no repository.
    NoRecordedRepo { package: String },
    /// An installed skill records no directory.
    NoSkillDir { package: String },
    /// A recorded script file has no file name.
    InvalidInstalledFile { path: String },
    /// The config's `mcp` value is not an object.
    McpNotObject,
    /// An MCP server entry has no string `id`.
    EntryWithoutId,
    /// The config already has a server entry with this id that no installed
    /// package recorded, so it was written by hand.
    EntryNotOwned { id: String },
    /// The config's `mcp.servers` value is not an array.
    ServersNotArray,
    /// The config text is not valid JSONC.
    InvalidJsonc,
    /// A source was given an empty URL or path.
    EmptySourceUrl,
    /// No stored source has this name or URL.
    SourceNotFound { name_or_url: String },
    /// The registry's `miyu-pm` package is not of type `app`.
    NotAnApp { kind: String },
    /// The `miyu-pm` app package has no `release` section.
    NoReleaseSection,
    /// The release section names no repository.
    NoReleaseRepo,
    /// The release section names no asset pattern.
    NoAssetPattern,
    /// The release has no asset of the expected name.
    AssetNotFound { asset: String, tag: String, available: Vec<String> },
    /// The matching asset has no download URL.
    NoDownloadUrl,
}

/// The message that an error is reported with.
pub open spec fn error_text(e: PmError) -> Seq<char> {
    match e {
        PmError::HomeNotSet => "HOME is not set"@,
        PmError::RegistryNotFound { path } => "registry index not found: "@ + path@
            + " (pass --registry or set MIYU_PM_REGISTRY)"@,
        PmError::PackageNotFound { name } => "package not found in registry: "@ + name@,
        PmError::NoRepo { package } => "package "@ + package@ + " has no repo URL in registry"@,
        PmError::MissingSection { package, section } => "package "@ + package@ + " has no "@
            + section@ + " section"@,
        PmError::UnsupportedKind { package, kind } => "M3 supports mcp/skill/script packages; '"@
            + package@ + "' is type '"@ + kind@ + "'"@,
        PmError::NotMcpPackage { package, kind } => "M1 prototype only installs mcp packages; '"@
            + package@ + "' is type '"@ + kind@ + "'"@,
        PmError::InvalidScriptPath { path } => "invalid script path "@ + path@,
        PmError::AlreadyInstalled { package } => package@ + " is already installed (use 'upgrade')"@,
        PmError::UnsafePath { path } => "unsafe relative path in package: "@ + path@,
        PmError::NoScriptFiles { package } => "script package "@ + package@ + " declares no files"@,
        PmError::NotManagedPath { path } => "refusing to remove non-managed path "@ + path@,
        PmError::WholeMcpDir => "refusing to remove the whole mcp-servers directory"@,
        PmError::WholeDataDir { path } => "refusing to remove whole data directory "@ + path@,
        PmError::NotManagedFile { path } => "refusing to remove non-managed file "@ + path@,
        PmError::NotInstalled { name } => "not installed: "@ + name@,
        PmError::NothingToUpgrade => "no matching installed packages to upgrade"@,
        PmError::NoTargetDir { package } => package@ + " has no target_dir in state"@,
        PmError::NoRecordedRepo { package } => package@ + " has no repo in state"@,
        PmError::NoSkillDir { package } => package@ + " has no skill dir in state"@,
        PmError::InvalidInstalledFile { path } => "invalid installed file "@ + path@,
        PmError::McpNotObject => "config mcp section is not an object"@,
        PmError::EntryWithoutId => "mcp entry requires an id string"@,
        PmError::EntryNotOwned { id } => "mcp.servers entry '"@ + id@
            + "' was not installed by miyu-pm; refusing to modify it"@,
        PmError::ServersNotArray => "mcp.servers is not an array"@,
        PmError::InvalidJsonc => "invalid JSONC"@,
        PmError::EmptySourceUrl => "source url/path cannot be empty"@,
        PmError::SourceNotFound { name_or_url } => "source not found: "@ + name_or_url@,
        PmError::NotAnApp { kind } => "registry package miyu-pm is type '"@ + kind@
            + "', expected 'app'"@,
        PmError::NoReleaseSection => "miyu-pm app package has no release section"@,
        PmError::NoReleaseRepo => "release.repo is missing"@,
        PmError::NoAssetPattern => "release.asset_pattern is missing"@,
        PmError::AssetNotFound { asset, tag, available } => "asset "@ + asset@
            + " not found in release "@ + tag@ + "; available: "@ + join_with(
            strings_view(available@),
            ", "@,
        ),
        PmError::NoDownloadUrl => "asset has no browser_download_url"@,
    }
}

fn concat2(a: &str, b: &str) -> (res: String)
    ensures
        res@ == a@ + b@,
{
    let mut s = owned(a);
    s.append(b);
    s
}

fn concat3(a: &str, b: &str, c: &str) -> (res: String)
    ensures
        res@ == a@ + b@ + c@,
{
    let mut s = owned(a);
    s.append(b);
    s.append(c);
    s
}

fn concat5(a: &str, b: &str, c: &str, d: &str, e: &str) -> (res: String)
    ensures
        res@ == a@ + b@ + c@ + d@ + e@,
{
    let mut s = owned(a);
    s.append(b);
    s.append(c);
    s.append(d);
    s.append(e);
    s
}

impl PmError {
    /// The message that the error is reported with.
    pub fn message(&self) -> (res: String)
        ensures
            res@ == error_text(*self),
    {
        match self {
            PmError::HomeNotSet => owned("HOME is not set"),
            PmError::RegistryNotFound { path } => concat3(
                "registry index not found: ",
                path.as_str(),
                " (pass --registry or set MIYU_PM_REGISTRY)",
            ),
            PmError::PackageNotFound { name } => concat2(
                "package not found in registry: ",
                name.as_str(),
            ),
            PmError::NoRepo { package } => concat3(
                "package ",
                package.as_str(),
                " has no repo URL in registry",
            ),
            PmError::MissingSection { package, section } => concat5(
                "package ",
                package.as_str(),
                " has no ",
                section.as_str(),
                " section",
            ),
            PmError::UnsupportedKind { package, kind } => concat5(
                "M3 supports mcp/skill/script packages; '",
                package.as_str(),
                "' is type '",
                kind.as_str(),
                "'",
            ),
            PmError::NotMcpPackage { package, kind } => concat5(
                "M1 prototype only installs mcp packages; '",
                package.as_str(),
                "' is type '",
                kind.as_str(),
                "'",
            ),
            PmError::InvalidScriptPath { path } => concat2("invalid script path ", path.as_str()),
            PmError::AlreadyInstalled { package } => concat2(
                package.as_str(),
                " is already installed (use 'upgrade')",
            ),
            PmError::UnsafePath { path } => concat2(
                "unsafe relative path in package: ",
                path.as_str(),
            ),
            PmError::NoScriptFiles { package } => concat3(
                "script package ",
                package.as_str(),
                " declares no files",
            ),
            PmError::NotManagedPath { path } => concat2(
                "refusing to remove non-managed path ",
                path.as_str(),
            ),
            PmError::WholeMcpDir => owned("refusing to remove the whole mcp-servers directory"),
            PmError::WholeDataDir { path } => concat2(
                "refusing to remove whole data directory ",
                path.as_str(),
            ),
            PmError::NotManagedFile { path } => concat2(
                "refusing to remove non-managed file ",
                path.as_str(),
            ),
            PmError::NotInstalled { name } => concat2("not installed: ", name.as_str()),
            PmError::NothingToUpgrade => owned("no matching installed packages to upgrade"),
            PmError::NoTargetDir { package } => concat2(
                package.as_str(),
                " has no target_dir in state",
            ),
            PmError::NoRecordedRepo { package } => concat2(package.as_str(), " has no repo in state"),
            PmError::NoSkillDir { package } => concat2(
                package.as_str(),
                " has no skill dir in state",
            ),
            PmError::InvalidInstalledFile { path } => concat2(
                "invalid installed file ",
                path.as_str(),
            ),
            PmError::McpNotObject => owned("config mcp section is not an object"),
            PmError::EntryWithoutId => owned("mcp entry requires an id string"),
            PmError::EntryNotOwned { id } => concat3(
                "mcp.servers entry '",
                id.as_str(),
                "' was not installed by miyu-pm; refusing to modify it",
            ),
            PmError::ServersNotArray => owned("mcp.servers is not an array"),
            PmError::InvalidJsonc => owned("invalid JSONC"),
            PmError::EmptySourceUrl => owned("source url/path cannot be empty"),
            PmError::SourceNotFound { name_or_url } => concat2(
                "source not found: ",
                name_or_url.as_str(),
            ),
            PmError::NotAnApp { kind } => concat3(
                "registry package miyu-pm is type '",
                kind.as_str(),
                "', expected 'app'",
            ),
            PmError::NoReleaseSection => owned("miyu-pm app package has no release section"),
            PmError::NoReleaseRepo => owned("release.repo is missing"),
            PmError::NoAssetPattern => owned("release.asset_pattern is missing"),
            PmError::AssetNotFound { asset, tag, available } => {
                let joined = join_strings(available, ", ");
                let mut s = concat5(
                    "asset ",
                    asset.as_str(),
                    " not found in release ",
                    tag.as_str(),
                    "; available: ",
                );
                s.append(joined.as_str());
                s
            },
            PmError::NoDownloadUrl => owned("asset has no browser_download_url"),
        }
    }
}

} // verus!
