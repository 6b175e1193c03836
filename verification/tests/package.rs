use chatgpt_linux_desktop::cli::{Format, Ring};
use chatgpt_linux_desktop::package::{
    arch_package_file, arch_pkgver, deb_control, deb_package_file, pkginfo, rpm_package_file,
    rpm_spec, rpm_version, DESKTOP_ENTRY,
};

#[test]
fn staged_desktop_entry_uses_classic_name() {
    let desktop_entry = DESKTOP_ENTRY;
    assert!(desktop_entry.contains("Name=ChatGPT Classic\n"));
    assert!(desktop_entry.contains("Comment=ChatGPT Classic Desktop\n"));
}

#[test]
fn versions_for_package_formats() {
    assert_eq!(arch_pkgver("1.2-3:4"), "1.2_3_4");
    assert_eq!(rpm_version("1.2-3:4"), "1.2_3:4");
    assert_eq!(
        arch_package_file("1-2"),
        "chatgpt-desktop-native-1_2-1-x86_64.pkg.tar.zst"
    );
    assert_eq!(deb_package_file("1-2"), "chatgpt-desktop-native_1-2_amd64.deb");
    assert_eq!(rpm_package_file("1-2"), "chatgpt-desktop-native-1_2-1.x86_64.rpm");
}

#[test]
fn package_metadata_texts() {
    let info = pkginfo("1.0-1", "Me", 1700000000, 42);
    assert!(info.starts_with("pkgname = chatgpt-desktop-native\npkgbase = chatgpt-desktop-native\npkgver = 1.0_1-1\n"));
    assert!(info.contains("\nbuilddate = 1700000000\npackager = Me\nsize = 42\narch = x86_64\n"));
    assert!(info.ends_with("depend = xdg-utils\n"));
    let control = deb_control("1.0-1", "Me");
    assert!(control.starts_with("Package: chatgpt-desktop-native\nVersion: 1.0-1\nSection: utils\n"));
    assert!(control.contains("\nMaintainer: Me\nDepends: "));
    let spec = rpm_spec("1.0-1", "Me", "/abs/root");
    assert!(spec.contains("Version:        1.0_1\n"));
    assert!(spec.contains("Packager:       Me\n\n%description\n"));
    assert!(spec.contains("%install\ncp -a /abs/root/. %{buildroot}/\n"));
    assert!(spec.contains("then\nupdate-desktop-database"));
}

#[test]
fn format_selection_and_ring_codes() {
    assert!(Format::Both.builds_arch() && Format::Both.builds_deb() && Format::Both.builds_rpm());
    assert!(Format::Deb.builds_deb() && !Format::Deb.builds_rpm() && !Format::Deb.builds_arch());
    assert!(Format::Rpm.builds_rpm() && !Format::Rpm.builds_deb());
    assert!(Format::Arch.builds_arch() && !Format::Arch.builds_deb());
    assert_eq!(Ring::Retail.as_str(), "Retail");
    assert_eq!(Ring::Rp.as_str(), "RP");
    assert_eq!(Ring::Wif.as_str(), "WIF");
    assert_eq!(Ring::Wis.as_str(), "WIS");
}
