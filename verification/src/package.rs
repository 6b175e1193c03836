//! What goes into the built packages: file names, scripts, desktop entry
//! and the metadata of the Arch, Debian and RPM formats.
use vstd::prelude::*;
use crate::text::{chars_of, decimal, push_decimal, string_of};

verus! {

/// Name of the built package, its launcher and its install directory under `/opt`.
pub const PACKAGE_NAME: &'static str = "chatgpt-desktop-native";

/// Name shown in application menus.
pub const APP_NAME: &'static str = "ChatGPT Classic";

/// One-line package description.
pub const DESCRIPTION: &'static str = "ChatGPT Classic desktop app repackaged from the official Windows MSIX into a native Linux Electron package";

/// File name of the desktop entry.
pub const DESKTOP_FILE: &'static str = "chatgpt-desktop-native.desktop";

/// `/usr/bin/chatgpt-desktop-native`: registers the URL handlers when it can, then starts Electron.
pub const LAUNCHER_SCRIPT: &'static str = "#!/usr/bin/env bash\nset -euo pipefail\nexport CHROME_DESKTOP=chatgpt-desktop-native.desktop\nif command -v xdg-mime >/dev/null 2>&1; then\n  xdg-mime default \"chatgpt-desktop-native.desktop\" x-scheme-handler/chatgpt >/dev/null 2>&1 || true\n  xdg-mime default \"chatgpt-desktop-native.desktop\" x-scheme-handler/chatgpt-alt >/dev/null 2>&1 || true\nfi\nexec /opt/chatgpt-desktop-native/electron/chatgpt-desktop-native --no-sandbox --class=chatgpt-desktop-native \"$@\"\n";

/// `/usr/bin/chatgpt-desktop-native-register`: registers the URL handlers and reports them.
pub const REGISTER_SCRIPT: &'static str = "#!/usr/bin/env bash\nset -euo pipefail\nif ! command -v xdg-mime >/dev/null 2>&1; then\n  echo \"xdg-mime not found\" >&2\n  exit 1\nfi\nxdg-mime default \"chatgpt-desktop-native.desktop\" x-scheme-handler/chatgpt\nxdg-mime default \"chatgpt-desktop-native.desktop\" x-scheme-handler/chatgpt-alt\necho \"Registered URL handlers:\"\necho \"  chatgpt -> $(xdg-mime query default x-scheme-handler/chatgpt)\"\necho \"  chatgpt-alt -> $(xdg-mime query default x-scheme-handler/chatgpt-alt)\"\n";

/// The desktop entry, handling `chatgpt:` and `chatgpt-alt:` links.
pub const DESKTOP_ENTRY: &'static str = "[Desktop Entry]\nName=ChatGPT Classic\nComment=ChatGPT Classic Desktop\nExec=chatgpt-desktop-native %u\nIcon=chatgpt-desktop-native\nType=Application\nTerminal=false\nCategories=Utility;\nStartupWMClass=chatgpt-desktop-native\nX-GNOME-WMClass=chatgpt-desktop-native\nMimeType=x-scheme-handler/chatgpt;x-scheme-handler/chatgpt-alt;\n";

/// The license note installed with the package.
pub const LICENSE_TEXT: &'static str = "This package repackages the official ChatGPT Classic application.\nAll rights reserved by OpenAI.\n";

/// The `.INSTALL` hooks of the Arch package.
pub const ARCH_INSTALL_SCRIPT: &'static str = "post_install() {\n  update-desktop-database /usr/share/applications >/dev/null 2>&1 || true\n}\n\npost_upgrade() {\n  post_install\n}\n\npost_remove() {\n  update-desktop-database /usr/share/applications >/dev/null 2>&1 || true\n}\n";

/// The `postinst` script of the Debian package.
pub const DEB_POSTINST: &'static str = "#!/usr/bin/env bash\nset -euo pipefail\nupdate-desktop-database /usr/share/applications >/dev/null 2>&1 || true\n";

/// The `postrm` script of the Debian package.
pub const DEB_POSTRM: &'static str = "#!/usr/bin/env bash\nset -euo pipefail\nif [[ \"${1:-}\" == \"remove\" || \"${1:-}\" == \"purge\" ]]; then\n  update-desktop-database /usr/share/applications >/dev/null 2>&1 || true\nfi\n";

/// Install directory, relative to the package root.
pub const INSTALL_DIR: &'static str = "opt/chatgpt-desktop-native";

/// Directory of the launchers, relative to the package root.
pub const BIN_DIR: &'static str = "usr/bin";

/// Directory of the desktop entry, relative to the package root.
pub const APPLICATIONS_DIR: &'static str = "usr/share/applications";

/// Directory of the 256x256 icon, relative to the package root.
pub const ICON_DIR: &'static str = "usr/share/icons/hicolor/256x256/apps";

/// Directory of the license note, relative to the package root.
pub const LICENSE_DIR: &'static str = "usr/share/licenses/chatgpt-desktop-native";

/// File name of the installed icon.
pub const ICON_FILE: &'static str = "chatgpt-desktop-native.png";

/// File name of the URL-handler registration helper.
pub const REGISTER_FILE: &'static str = "chatgpt-desktop-native-register";

/// Pieces of the `.PKGINFO` text, between its variable parts.
pub const PKGINFO_A: &'static str = "pkgname = chatgpt-desktop-native\npkgbase = chatgpt-desktop-native\npkgver = ";

pub const PKGINFO_B: &'static str = "-1\npkgdesc = ChatGPT Classic desktop app repackaged from the official Windows MSIX into a native Linux Electron package\nbuilddate = ";

pub const PKGINFO_C: &'static str = "\npackager = ";

pub const PKGINFO_D: &'static str = "\nsize = ";

pub const PKGINFO_E: &'static str = "\narch = x86_64\nlicense = custom:proprietary\ndepend = gtk3\ndepend = nss\ndepend = libxss\ndepend = alsa-lib\ndepend = mesa\ndepend = libxshmfence\ndepend = at-spi2-core\ndepend = libdrm\ndepend = libxkbcommon\ndepend = xdg-utils\n";

/// Pieces of the Debian `control` text, between its variable parts.
pub const CONTROL_A: &'static str = "Package: chatgpt-desktop-native\nVersion: ";

pub const CONTROL_B: &'static str = "\nSection: utils\nPriority: optional\nArchitecture: amd64\nMaintainer: ";

pub const CONTROL_C: &'static str = "\nDepends: libgtk-3-0, libnss3, libxss1, libasound2t64 | libasound2, libgbm1, libxshmfence1, libatk-bridge2.0-0, libdrm2, libxkbcommon0, xdg-utils\nDescription: ChatGPT Classic desktop app repackaged from the official Windows MSIX into a native Linux Electron package\n";

/// Pieces of the RPM spec, between its variable parts.
pub const SPEC_A: &'static str = "Name:           chatgpt-desktop-native\nVersion:        ";

pub const SPEC_B: &'static str = "\nRelease:        1\nSummary:        ChatGPT Classic desktop app repackaged from the official Windows MSIX into a native Linux Electron package\nLicense:        Proprietary\nBuildArch:      x86_64\nPackager:       ";

pub const SPEC_C: &'static str = "\n\n%description\nChatGPT Classic desktop app repackaged from the official Windows MSIX into a native Linux Electron package\n\n%install\ncp -a ";

pub const SPEC_D: &'static str = "/. %{buildroot}/\n\n%post\nupdate-desktop-database /usr/share/applications >/dev/null 2>&1 || true\n\n%postun\nif [ \"$1\" = \"0\" ]; then\nupdate-desktop-database /usr/share/applications >/dev/null 2>&1 || true\nfi\n\n%files\n%defattr(-,root,root,-)\n/opt/chatgpt-desktop-native/\n/usr/bin/chatgpt-desktop-native\n/usr/bin/chatgpt-desktop-native-register\n/usr/share/applications/chatgpt-desktop-native.desktop\n/usr/share/icons/hicolor/256x256/apps/chatgpt-desktop-native.png\n/usr/share/licenses/chatgpt-desktop-native/LICENSE\n";

/// A version string with `-` and `:` (not allowed in an Arch `pkgver`) made `_`.
pub open spec fn arch_version(v: Seq<char>) -> Seq<char> {
    v.map_values(|c: char| if c == '-' || c == ':' { '_' } else { c })
}

/// A version string with `-` (not allowed in an RPM version) made `_`.
pub open spec fn rpm_version_of(v: Seq<char>) -> Seq<char> {
    v.map_values(|c: char| if c == '-' { '_' } else { c })
}

fn map_version(version: &str, colon_too: bool) -> (r: String)
    ensures
        colon_too ==> r@ == arch_version(version@),
        !colon_too ==> r@ == rpm_version_of(version@),
{
    let cs = chars_of(version);
    let mut out: Vec<char> = Vec::new();
    let n = cs.len();
    for i in 0..n
        invariant
            n == cs@.len(),
            cs@ == version@,
            colon_too ==> out@ == arch_version(cs@.take(i as int)),
            !colon_too ==> out@ == rpm_version_of(cs@.take(i as int)),
    {
        let c = cs[i];
        let m = if c == '-' || (colon_too && c == ':') {
            '_'
        } else {
            c
        };
        out.push(m);
        assert(arch_version(cs@.take(i + 1)) == arch_version(cs@.take(i as int)).push(
            if c == '-' || c == ':' {
                '_'
            } else {
                c
            },
        ));
        assert(rpm_version_of(cs@.take(i + 1)) == rpm_version_of(cs@.take(i as int)).push(
            if c == '-' {
                '_'
            } else {
                c
            },
        ));
    }
    assert(cs@.take(n as int) == cs@);
    string_of(&out)
}

/// The `pkgver` of the Arch package for `version`.
pub fn arch_pkgver(version: &str) -> (r: String)
    ensures
        r@ == arch_version(version@),
{
    map_version(version, true)
}

/// The version of the RPM package for `version`.
pub fn rpm_version(version: &str) -> (r: String)
    ensures
        r@ == rpm_version_of(version@),
{
    map_version(version, false)
}

/// The `.PKGINFO` of the Arch package.
pub open spec fn pkginfo_text(version: Seq<char>, maintainer: Seq<char>, build_date: nat, size: nat) -> Seq<char> {
    PKGINFO_A@ + arch_version(version) + PKGINFO_B@ + decimal(build_date) + PKGINFO_C@ + maintainer
        + PKGINFO_D@ + decimal(size) + PKGINFO_E@
}

/// The `.PKGINFO` of the Arch package: name, version, description, build
/// time (seconds since the epoch), packager, installed size in bytes, and
/// dependencies.
pub fn pkginfo(version: &str, maintainer: &str, build_date: u64, installed_size: u64) -> (r: String)
    ensures
        r@ == pkginfo_text(version@, maintainer@, build_date as nat, installed_size as nat),
{
    let mut s = String::new();
    s.append(PKGINFO_A);
    s.append(arch_pkgver(version).as_str());
    s.append(PKGINFO_B);
    push_decimal(&mut s, build_date);
    s.append(PKGINFO_C);
    s.append(maintainer);
    s.append(PKGINFO_D);
    push_decimal(&mut s, installed_size);
    s.append(PKGINFO_E);
    s
}

/// The `control` file of the Debian package.
pub open spec fn control_text(version: Seq<char>, maintainer: Seq<char>) -> Seq<char> {
    CONTROL_A@ + version + CONTROL_B@ + maintainer + CONTROL_C@
}

/// The `control` file of the Debian package: name, version, maintainer,
/// dependencies and description.
pub fn deb_control(version: &str, maintainer: &str) -> (r: String)
    ensures
        r@ == control_text(version@, maintainer@),
        crate::text::ends_with(r@, "\nDescription: "@ + DESCRIPTION@ + "\n"@),
{
    proof {
        lemma_control_has_description(version@, maintainer@);
    }
    let mut s = String::new();
    s.append(CONTROL_A);
    s.append(version);
    s.append(CONTROL_B);
    s.append(maintainer);
    s.append(CONTROL_C);
    s
}

/// The RPM spec that copies the package root `pkg_root` into the build root.
pub open spec fn spec_text(version: Seq<char>, maintainer: Seq<char>, pkg_root: Seq<char>) -> Seq<char> {
    SPEC_A@ + rpm_version_of(version) + SPEC_B@ + maintainer + SPEC_C@ + pkg_root + SPEC_D@
}

/// The RPM spec for `version`, installing the staged tree at `pkg_root`
/// (an absolute path).
pub fn rpm_spec(version: &str, maintainer: &str, pkg_root: &str) -> (r: String)
    ensures
        r@ == spec_text(version@, maintainer@, pkg_root@),
{
    let mut s = String::new();
    s.append(SPEC_A);
    s.append(rpm_version(version).as_str());
    s.append(SPEC_B);
    s.append(maintainer);
    s.append(SPEC_C);
    s.append(pkg_root);
    s.append(SPEC_D);
    s
}

/// File name of the Arch package for `version`.
pub fn arch_package_file(version: &str) -> (r: String)
    ensures
        r@ == PACKAGE_NAME@ + "-"@ + arch_version(version@) + "-1-x86_64.pkg.tar.zst"@,
{
    let mut s = String::new();
    s.append(PACKAGE_NAME);
    s.append("-");
    s.append(arch_pkgver(version).as_str());
    s.append("-1-x86_64.pkg.tar.zst");
    s
}

/// File name of the Debian package for `version`.
pub fn deb_package_file(version: &str) -> (r: String)
    ensures
        r@ == PACKAGE_NAME@ + "_"@ + version@ + "_amd64.deb"@,
{
    let mut s = String::new();
    s.append(PACKAGE_NAME);
    s.append("_");
    s.append(version);
    s.append("_amd64.deb");
    s
}

/// File name of the RPM package for `version`.
pub fn rpm_package_file(version: &str) -> (r: String)
    ensures
        r@ == PACKAGE_NAME@ + "-"@ + rpm_version_of(version@) + "-1.x86_64.rpm"@,
{
    let mut s = String::new();
    s.append(PACKAGE_NAME);
    s.append("-");
    s.append(rpm_version(version).as_str());
    s.append("-1.x86_64.rpm");
    s
}

/// The Debian `control` file ends with the mandatory `Description` field,
/// holding the package description, on a line of its own.
pub proof fn lemma_control_has_description(version: Seq<char>, maintainer: Seq<char>)
    ensures
        crate::text::ends_with(
            control_text(version, maintainer),
            "\nDescription: "@ + DESCRIPTION@ + "\n"@,
        ),
{
    reveal_strlit("\nDepends: libgtk-3-0, libnss3, libxss1, libasound2t64 | libasound2, libgbm1, libxshmfence1, libatk-bridge2.0-0, libdrm2, libxkbcommon0, xdg-utils\nDescription: ChatGPT Classic desktop app repackaged from the official Windows MSIX into a native Linux Electron package\n");
    reveal_strlit("ChatGPT Classic desktop app repackaged from the official Windows MSIX into a native Linux Electron package");
    reveal_strlit("\nDescription: ");
    reveal_strlit("\n");
    let c = CONTROL_C@;
    let suf = "\nDescription: "@ + DESCRIPTION@ + "\n"@;
    let t = control_text(version, maintainer);
    assert(c.skip(c.len() - suf.len()) =~= suf);
    assert(t.skip(t.len() - suf.len()) =~= c.skip(c.len() - suf.len()));
}

} // verus!
