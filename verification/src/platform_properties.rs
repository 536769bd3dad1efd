//! What differs between the path syntaxes of the supported platforms.

use vstd::prelude::*;

use crate::text::starts_with;

verus! {

/// Properties of paths of a specific platform.
pub trait PlatformProperties {
    /// The separators used on the platform, the preferred one first.
    spec fn separator_list(&self) -> Seq<char>;

    /// The name of the root object at the start of `path`, if there is one,
    /// and the rest of the path behind it.
    spec fn root_of(&self, path: Seq<char>) -> Option<(Seq<char>, Seq<char>)>;

    /// Returns a list of separators used on the platform.
    ///
    /// The first in the list is assumed to be the preferred one.
    fn separators(&self) -> (list: &[char])
        ensures
            list@ == self.separator_list(),
    ;

    /// Returns the name of the root object in the path, if there is one,
    /// together with what follows it.
    fn root_name<'a>(&'a self, path: &'a str) -> (root: Option<(&'a str, &'a str)>)
        ensures
            match self.root_of(path@) {
                Some((name, rest)) => root matches Some(found) && found.0@ == name && found.1@
                    == rest,
                None => root is None,
            },
    ;
}

/// Properties of Windows paths.
#[derive(Clone, Copy, Debug, Default)]
pub struct Windows {}

/// Properties of Unix-style paths.
#[derive(Clone, Copy, Debug, Default)]
pub struct Unix {}

/// The separators of Windows paths.
pub const WINDOWS_SEPARATORS: [char; 2] = ['\\', '/'];

/// The separator of Unix-style paths.
pub const UNIX_SEPARATORS: [char; 1] = ['/'];

/// Whether `c` is one of the letters `A` to `Z`, in either case.
pub open spec fn is_drive_letter(c: char) -> bool {
    ('a' <= c && c <= 'z') || ('A' <= c && c <= 'Z')
}

/// The drive name that `path` begins with: a letter and a colon.
pub open spec fn drive_of(path: Seq<char>) -> Option<Seq<char>> {
    if path.len() >= 2 && is_drive_letter(path[0]) && path[1] == ':' {
        Some(path.take(2))
    } else {
        None
    }
}

impl Windows {
    /// The drive name at the start of `path`, such as `C:`, if it has one.
    pub fn get_drive_name(path: &str) -> (drive: Option<&str>)
        ensures
            match drive_of(path@) {
                Some(name) => drive is Some && drive->0@ == name,
                None => drive is None,
            },
    {
        let length = path.unicode_len();
        if length < 2 {
            return None;
        }
        let letter = path.get_char(0);
        if !(('a' <= letter && letter <= 'z') || ('A' <= letter && letter <= 'Z')) {
            return None;
        }
        if path.get_char(1) == ':' {
            let name = path.substring_char(0, 2);
            Some(name)
        } else {
            None
        }
    }
}

impl PlatformProperties for Windows {
    open spec fn separator_list(&self) -> Seq<char> {
        seq!['\\', '/']
    }

    open spec fn root_of(&self, path: Seq<char>) -> Option<(Seq<char>, Seq<char>)> {
        match drive_of(path) {
            Some(name) => Some((name, path.skip(2))),
            None => None,
        }
    }

    fn separators(&self) -> (list: &[char]) {
        let list = WINDOWS_SEPARATORS.as_slice();
        list
    }

    fn root_name<'a>(&'a self, path: &'a str) -> (root: Option<(&'a str, &'a str)>) {
        match Windows::get_drive_name(path) {
            Some(drive_name) => {
                let rest = path.substring_char(2, path.unicode_len());
                Some((drive_name, rest))
            },
            None => None,
        }
    }
}

impl PlatformProperties for Unix {
    open spec fn separator_list(&self) -> Seq<char> {
        seq!['/']
    }

    open spec fn root_of(&self, path: Seq<char>) -> Option<(Seq<char>, Seq<char>)> {
        if path.len() > 0 && path[0] == '/' {
            Some((Seq::<char>::empty(), path))
        } else {
            None
        }
    }

    fn separators(&self) -> (list: &[char]) {
        let list = UNIX_SEPARATORS.as_slice();
        list
    }

    fn root_name<'a>(&'a self, path: &'a str) -> (root: Option<(&'a str, &'a str)>) {
        proof {
            reveal_strlit("/");
            reveal_strlit("");
        }
        if starts_with(path, "/") {
            assert(path@.subrange(0, 1)[0] == '/');
            Some(("", path))
        } else {
            None
        }
    }
}

/// The platforms whose properties are known.
#[derive(Clone, Copy, Debug)]
pub enum Platform {
    Windows(Windows),
    Unix(Unix),
}

/// The properties of one of the known platforms, whichever it is.
#[derive(Clone, Copy, Debug)]
pub struct PlatformPropertiesOpaque {
    inner: Platform,
}

impl PlatformPropertiesOpaque {
    /// The platform whose properties these are.
    pub closed spec fn platform(&self) -> Platform {
        self.inner
    }
}

impl From<Windows> for PlatformPropertiesOpaque {
    fn from(properties: Windows) -> (opaque: PlatformPropertiesOpaque)
        ensures
            opaque.platform() == Platform::Windows(properties),
    {
        PlatformPropertiesOpaque { inner: Platform::Windows(properties) }
    }
}

impl vstd::std_specs::convert::FromSpecImpl<Windows> for PlatformPropertiesOpaque {
    open spec fn obeys_from_spec() -> bool {
        true
    }

    closed spec fn from_spec(properties: Windows) -> PlatformPropertiesOpaque {
        PlatformPropertiesOpaque { inner: Platform::Windows(properties) }
    }
}

impl From<Unix> for PlatformPropertiesOpaque {
    fn from(properties: Unix) -> (opaque: PlatformPropertiesOpaque)
        ensures
            opaque.platform() == Platform::Unix(properties),
    {
        PlatformPropertiesOpaque { inner: Platform::Unix(properties) }
    }
}

impl vstd::std_specs::convert::FromSpecImpl<Unix> for PlatformPropertiesOpaque {
    open spec fn obeys_from_spec() -> bool {
        true
    }

    closed spec fn from_spec(properties: Unix) -> PlatformPropertiesOpaque {
        PlatformPropertiesOpaque { inner: Platform::Unix(properties) }
    }
}

impl PlatformProperties for PlatformPropertiesOpaque {
    open spec fn separator_list(&self) -> Seq<char> {
        match self.platform() {
            Platform::Windows(properties) => properties.separator_list(),
            Platform::Unix(properties) => properties.separator_list(),
        }
    }

    open spec fn root_of(&self, path: Seq<char>) -> Option<(Seq<char>, Seq<char>)> {
        match self.platform() {
            Platform::Windows(properties) => properties.root_of(path),
            Platform::Unix(properties) => properties.root_of(path),
        }
    }

    fn separators(&self) -> (list: &[char]) {
        match &self.inner {
            Platform::Windows(properties) => properties.separators(),
            Platform::Unix(properties) => properties.separators(),
        }
    }

    fn root_name<'a>(&'a self, path: &'a str) -> (root: Option<(&'a str, &'a str)>) {
        match &self.inner {
            Platform::Windows(properties) => properties.root_name(path),
            Platform::Unix(properties) => properties.root_name(path),
        }
    }
}

} // verus!
