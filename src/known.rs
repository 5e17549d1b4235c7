//! The fixed path sets that classification and labelling consult.
use vstd::prelude::*;

verus! {

/// The views of a list of strings.
pub open spec fn views(l: Seq<&str>) -> Seq<Seq<char>> {
    l.map_values(|s: &str| s@)
}

/// Whether `p` is one of the strings in `l`.
pub fn contains_str(l: &Vec<&str>, p: &str) -> (r: bool)
    ensures
        r == views(l@).contains(p@),
{
    let mut i: usize = 0;
    while i < l.len()
        invariant
            i <= l@.len(),
            forall|k: int| 0 <= k < i ==> l@[k]@ != p@,
        decreases l@.len() - i,
    {
        if crate::text::str_eq(l[i], p) {
            assert(views(l@)[i as int] == p@);
            return true;
        }
        i = i + 1;
    }
    assert forall|k: int| 0 <= k < views(l@).len() implies views(l@)[k] != p@ by {
        assert(views(l@)[k] == l@[k]@);
    }
    false
}

/// Command interpreters whose first argument may name a script.
pub open spec fn shell_paths() -> Seq<Seq<char>> {
    seq![
        "/usr/bin/bash"@,
        "/bin/bash"@,
        "/usr/bin/chsh"@,
        "/bin/chsh"@,
        "/usr/bin/csh"@,
        "/bin/csh"@,
        "/usr/bin/dash"@,
        "/bin/dash"@,
        "/usr/bin/ksh"@,
        "/bin/ksh"@,
        "/usr/bin/rbash"@,
        "/bin/rbash"@,
        "/usr/bin/sh"@,
        "/bin/sh"@,
        "/usr/bin/tcsh"@,
        "/bin/tcsh"@,
        "/usr/bin/zsh"@,
        "/bin/zsh"@,
    ]
}

/// Language runtimes whose first argument may name a script.
pub open spec fn python_paths() -> Seq<Seq<char>> {
    seq![
        "/usr/bin/python2.6"@,
        "/usr/bin/python2.7"@,
        "/usr/bin/python3.0"@,
        "/usr/bin/python3.1"@,
        "/usr/bin/python3.2"@,
        "/usr/bin/python3.3"@,
        "/usr/bin/python3.4"@,
        "/usr/bin/python3.5"@,
        "/usr/bin/python3.6"@,
        "/usr/bin/python3.8"@,
        "/usr/bin/python3.9"@,
        "/usr/bin/python3.10"@,
        "/usr/bin/python3.11"@,
    ]
}

/// Binaries shipped by the operating system, labelled `base`.
pub open spec fn base_paths() -> Seq<Seq<char>> {
    seq![
        "/usr/bin/awk"@,
        "/usr/bin/basename"@,
        "/usr/bin/bash"@,
        "/usr/bin/cat"@,
        "/usr/bin/chmod"@,
        "/usr/bin/chown"@,
        "/usr/bin/cp"@,
        "/usr/bin/cut"@,
        "/usr/bin/date"@,
        "/usr/bin/dd"@,
        "/usr/bin/df"@,
        "/usr/bin/dirname"@,
        "/usr/bin/du"@,
        "/usr/bin/echo"@,
        "/usr/bin/env"@,
        "/usr/bin/false"@,
        "/usr/bin/find"@,
        "/usr/bin/grep"@,
        "/usr/bin/gzip"@,
        "/usr/bin/head"@,
        "/usr/bin/hostname"@,
        "/usr/bin/id"@,
        "/usr/bin/kill"@,
        "/usr/bin/ln"@,
        "/usr/bin/ls"@,
        "/usr/bin/mkdir"@,
        "/usr/bin/mktemp"@,
        "/usr/bin/mount"@,
        "/usr/bin/mv"@,
        "/usr/bin/ps"@,
        "/usr/bin/readlink"@,
        "/usr/bin/rm"@,
        "/usr/bin/rmdir"@,
        "/usr/bin/sed"@,
        "/usr/bin/sh"@,
        "/usr/bin/sleep"@,
        "/usr/bin/sort"@,
        "/usr/bin/stat"@,
        "/usr/bin/tail"@,
        "/usr/bin/tar"@,
        "/usr/bin/tee"@,
        "/usr/bin/touch"@,
        "/usr/bin/tr"@,
        "/usr/bin/true"@,
        "/usr/bin/umount"@,
        "/usr/bin/uname"@,
        "/usr/bin/wc"@,
        "/usr/bin/which"@,
        "/usr/bin/xargs"@,
        "/usr/sbin/agetty"@,
        "/usr/sbin/cron"@,
        "/usr/sbin/ip"@,
        "/usr/sbin/ldconfig"@,
        "/usr/sbin/modprobe"@,
    ]
}

/// Architecture triplets that toolchain binaries carry in their names,
/// in the order in which they are tried.
pub open spec fn triplets() -> Seq<Seq<char>> {
    seq![
        "x86_64-unknown-linux-gnu-"@,
        "x86_64-linux-gnu-"@,
        "aarch64-unknown-linux-gnu-"@,
        "aarch64-linux-gnu-"@,
        "i686-linux-gnu-"@,
        "arm-linux-gnueabihf-"@,
        "-x86_64-unknown-linux-gnu"@,
        "-aarch64-unknown-linux-gnu"@,
    ]
}

/// Whether `p` is a known shell.
pub fn is_shell_path(p: &str) -> (r: bool)
    ensures
        r == shell_paths().contains(p@),
{
    let l: Vec<&str> = vec![
        "/usr/bin/bash",
        "/bin/bash",
        "/usr/bin/chsh",
        "/bin/chsh",
        "/usr/bin/csh",
        "/bin/csh",
        "/usr/bin/dash",
        "/bin/dash",
        "/usr/bin/ksh",
        "/bin/ksh",
        "/usr/bin/rbash",
        "/bin/rbash",
        "/usr/bin/sh",
        "/bin/sh",
        "/usr/bin/tcsh",
        "/bin/tcsh",
        "/usr/bin/zsh",
        "/bin/zsh",
    ];
    assert(views(l@) =~= shell_paths());
    contains_str(&l, p)
}

/// Whether `p` is a known language runtime.
pub fn is_python_path(p: &str) -> (r: bool)
    ensures
        r == python_paths().contains(p@),
{
    let l: Vec<&str> = vec![
        "/usr/bin/python2.6",
        "/usr/bin/python2.7",
        "/usr/bin/python3.0",
        "/usr/bin/python3.1",
        "/usr/bin/python3.2",
        "/usr/bin/python3.3",
        "/usr/bin/python3.4",
        "/usr/bin/python3.5",
        "/usr/bin/python3.6",
        "/usr/bin/python3.8",
        "/usr/bin/python3.9",
        "/usr/bin/python3.10",
        "/usr/bin/python3.11",
    ];
    assert(views(l@) =~= python_paths());
    contains_str(&l, p)
}

/// Whether `p` is a binary of the base system.
pub fn is_base(p: &str) -> (r: bool)
    ensures
        r == base_paths().contains(p@),
{
    let l: Vec<&str> = vec![
        "/usr/bin/awk",
        "/usr/bin/basename",
        "/usr/bin/bash",
        "/usr/bin/cat",
        "/usr/bin/chmod",
        "/usr/bin/chown",
        "/usr/bin/cp",
        "/usr/bin/cut",
        "/usr/bin/date",
        "/usr/bin/dd",
        "/usr/bin/df",
        "/usr/bin/dirname",
        "/usr/bin/du",
        "/usr/bin/echo",
        "/usr/bin/env",
        "/usr/bin/false",
        "/usr/bin/find",
        "/usr/bin/grep",
        "/usr/bin/gzip",
        "/usr/bin/head",
        "/usr/bin/hostname",
        "/usr/bin/id",
        "/usr/bin/kill",
        "/usr/bin/ln",
        "/usr/bin/ls",
        "/usr/bin/mkdir",
        "/usr/bin/mktemp",
        "/usr/bin/mount",
        "/usr/bin/mv",
        "/usr/bin/ps",
        "/usr/bin/readlink",
        "/usr/bin/rm",
        "/usr/bin/rmdir",
        "/usr/bin/sed",
        "/usr/bin/sh",
        "/usr/bin/sleep",
        "/usr/bin/sort",
        "/usr/bin/stat",
        "/usr/bin/tail",
        "/usr/bin/tar",
        "/usr/bin/tee",
        "/usr/bin/touch",
        "/usr/bin/tr",
        "/usr/bin/true",
        "/usr/bin/umount",
        "/usr/bin/uname",
        "/usr/bin/wc",
        "/usr/bin/which",
        "/usr/bin/xargs",
        "/usr/sbin/agetty",
        "/usr/sbin/cron",
        "/usr/sbin/ip",
        "/usr/sbin/ldconfig",
        "/usr/sbin/modprobe",
    ];
    assert(views(l@) =~= base_paths());
    contains_str(&l, p)
}

/// The known architecture triplets, in order.
pub fn triplet_list() -> (r: Vec<&'static str>)
    ensures
        views(r@) == triplets(),
{
    let l: Vec<&str> = vec![
        "x86_64-unknown-linux-gnu-",
        "x86_64-linux-gnu-",
        "aarch64-unknown-linux-gnu-",
        "aarch64-linux-gnu-",
        "i686-linux-gnu-",
        "arm-linux-gnueabihf-",
        "-x86_64-unknown-linux-gnu",
        "-aarch64-unknown-linux-gnu",
    ];
    assert(views(l@) =~= triplets());
    l
}

} // verus!
