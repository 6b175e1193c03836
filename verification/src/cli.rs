//! The options of the command line and what they select.
use vstd::prelude::*;

verus! {

/// The Electron release bundled unless another is asked for.
pub const DEFAULT_ELECTRON_VERSION: &'static str = "41.2.2";

/// The options the tool runs with.
#[derive(Debug)]
pub struct Args {
    /// Path to the ChatGPT Classic MSIXBundle; fetched through rg-adguard when absent.
    pub msix: Option<String>,
    /// Store URL or product ID sent to rg-adguard.
    pub store_query: String,
    /// Update ring asked of rg-adguard.
    pub ring: Ring,
    /// Package version to use instead of the detected one.
    pub pkg_version: Option<String>,
    /// Directory for the built packages.
    pub out_dir: String,
    /// Package format(s) to build.
    pub format: Format,
    /// Electron version to bundle.
    pub electron_version: String,
    /// Keep the build directory after completion.
    pub no_clean: bool,
    /// Package maintainer.
    pub maintainer: String,
}

/// Package formats the tool can build.
#[derive(Clone, Copy, Debug, PartialEq, Eq, Structural)]
pub enum Format {
    Arch,
    Deb,
    Rpm,
    Both,
}

/// Microsoft Store update rings.
#[derive(Clone, Copy, Debug, PartialEq, Eq, Structural)]
pub enum Ring {
    /// The stable ring.
    Retail,
    /// Release Preview.
    Rp,
    /// Windows Insider Fast.
    Wif,
    /// Windows Insider Slow.
    Wis,
}

impl Ring {
    /// The ring code rg-adguard expects (upper case, not the option name).
    pub fn as_str(&self) -> (r: &'static str)
        ensures
            r@ == match self {
                Ring::Retail => "Retail"@,
                Ring::Rp => "RP"@,
                Ring::Wif => "WIF"@,
                Ring::Wis => "WIS"@,
            },
    {
        match self {
            Ring::Retail => "Retail",
            Ring::Rp => "RP",
            Ring::Wif => "WIF",
            Ring::Wis => "WIS",
        }
    }
}

impl Format {
    /// An Arch Linux package is built.
    pub fn builds_arch(&self) -> (r: bool)
        ensures
            r == (*self == Format::Arch || *self == Format::Both),
    {
        matches!(self, Format::Arch | Format::Both)
    }

    /// A Debian package is built.
    pub fn builds_deb(&self) -> (r: bool)
        ensures
            r == (*self == Format::Deb || *self == Format::Both),
    {
        matches!(self, Format::Deb | Format::Both)
    }

    /// An RPM package is built.
    pub fn builds_rpm(&self) -> (r: bool)
        ensures
            r == (*self == Format::Rpm || *self == Format::Both),
    {
        matches!(self, Format::Rpm | Format::Both)
    }
}

} // verus!
