//! What a container may do with a device file.

use vstd::prelude::*;
use vstd::string::*;

verus! {

/// The permissions on a device file.
#[derive(Clone, Copy, Debug, PartialEq, Eq, Structural)]
pub struct DevicePermissions {
    pub read: bool,
    pub write: bool,
    pub mknod: bool,
}

/// Permissions in cgroup notation: `r`, `w` and `m`, each where it is granted.
pub open spec fn permissions_text(permissions: DevicePermissions) -> Seq<char> {
    (if permissions.read {
        seq!['r']
    } else {
        Seq::empty()
    }) + (if permissions.write {
        seq!['w']
    } else {
        Seq::empty()
    }) + (if permissions.mknod {
        seq!['m']
    } else {
        Seq::empty()
    })
}

impl DevicePermissions {
    /// Permission to read.
    pub fn rdonly() -> (permissions: DevicePermissions)
        ensures
            permissions == (DevicePermissions { read: true, write: false, mknod: false }),
    {
        DevicePermissions { read: true, write: false, mknod: false }
    }

    /// Permission to read and to write.
    pub fn rdwr() -> (permissions: DevicePermissions)
        ensures
            permissions == (DevicePermissions { read: true, write: true, mknod: false }),
    {
        DevicePermissions { read: true, write: true, mknod: false }
    }

    /// The permissions in cgroup notation.
    pub fn as_str(&self) -> (text: &'static str)
        ensures
            text@ == permissions_text(*self),
    {
        proof {
            reveal_strlit("rwm");
            reveal_strlit("rw");
            reveal_strlit("rm");
            reveal_strlit("r");
            reveal_strlit("wm");
            reveal_strlit("w");
            reveal_strlit("m");
            reveal_strlit("");
        }
        match (self.read, self.write, self.mknod) {
            (true, true, true) => "rwm",
            (true, true, false) => "rw",
            (true, false, true) => "rm",
            (true, false, false) => "r",
            (false, true, true) => "wm",
            (false, true, false) => "w",
            (false, false, true) => "m",
            (false, false, false) => "",
        }
    }

    /// The permissions in cgroup notation.
    pub fn to_string(&self) -> (text: String)
        ensures
            text@ == permissions_text(*self),
    {
        self.as_str().to_owned()
    }
}

} // verus!
