use path_match::platform_properties::{PlatformProperties, PlatformPropertiesOpaque, Unix, Windows};

#[test]
fn windows_drive_names() {
    assert_eq!(Windows::get_drive_name("C:\\Users"), Some("C:"));
    assert_eq!(Windows::get_drive_name("c:"), Some("c:"));
    assert_eq!(Windows::get_drive_name("z:/x"), Some("z:"));
    assert_eq!(Windows::get_drive_name("Z:"), Some("Z:"));
}

#[test]
fn windows_paths_without_drive_name() {
    assert_eq!(Windows::get_drive_name(""), None);
    assert_eq!(Windows::get_drive_name("C"), None);
    assert_eq!(Windows::get_drive_name("C\\"), None);
    assert_eq!(Windows::get_drive_name("1:"), None);
    assert_eq!(Windows::get_drive_name(":C"), None);
    assert_eq!(Windows::get_drive_name("é:"), None);
    assert_eq!(Windows::get_drive_name("[:"), None);
    assert_eq!(Windows::get_drive_name("\\\\server"), None);
}

#[test]
fn windows_properties() {
    let windows = Windows::default();
    assert_eq!(windows.separators(), &['\\', '/']);
    assert_eq!(windows.root_name("C:\\Users"), Some(("C:", "\\Users")));
    assert_eq!(windows.root_name("d:"), Some(("d:", "")));
    assert_eq!(windows.root_name("Users"), None);
}

#[test]
fn unix_properties() {
    let unix = Unix::default();
    assert_eq!(unix.separators(), &['/']);
    assert_eq!(unix.root_name("/usr/lib"), Some(("", "/usr/lib")));
    assert_eq!(unix.root_name("/"), Some(("", "/")));
    assert_eq!(unix.root_name("usr/lib"), None);
    assert_eq!(unix.root_name(""), None);
}

#[test]
fn opaque_properties_are_those_of_their_platform() {
    let windows = PlatformPropertiesOpaque::from(Windows::default());
    assert_eq!(windows.separators(), &['\\', '/']);
    assert_eq!(windows.root_name("C:\\Users"), Some(("C:", "\\Users")));
    assert_eq!(windows.root_name("/usr"), None);

    let unix: PlatformPropertiesOpaque = Unix::default().into();
    assert_eq!(unix.separators(), &['/']);
    assert_eq!(unix.root_name("/usr"), Some(("", "/usr")));
    assert_eq!(unix.root_name("C:\\Users"), None);
}
