//! The directory-change protocol encoder.
//!
//! The process that runs a command cannot change its parent shell's working
//! directory. Instead it prints one line opening with the sentinel `RUN>`;
//! a wrapper function installed in the shell strips the sentinel and
//! evaluates the remainder in the caller's own context, and passes every
//! other line through untouched. The wrapper reads line-delimited input, so
//! an emitted sentinel line must never hold an embedded newline.

use vstd::prelude::*;

use crate::record::Workspace;

verus! {

/// The bytes of the sentinel `RUN>`.
pub open spec fn sentinel() -> Seq<u8> {
    seq![82u8, 85u8, 78u8, 62u8]
}

/// The bytes of `cd `, opening the change-directory command.
pub open spec fn cd_prefix() -> Seq<u8> {
    seq![99u8, 100u8, 32u8]
}

/// Whether a byte string holds a newline.
pub open spec fn has_newline(s: Seq<u8>) -> bool {
    exists|i: int| 0 <= i < s.len() && s[i] == 10
}

/// Runtime check for [`has_newline`].
pub fn contains_newline(v: &Vec<u8>) -> (r: bool)
    ensures
        r == has_newline(v@),
{
    let n = v.len();
    let mut i: usize = 0;
    while i < n
        invariant
            i <= n,
            n == v@.len(),
            forall|k: int| 0 <= k < i ==> v@[k] != 10,
        decreases n - i,
    {
        if v[i] == 10 {
            return true;
        }
        i = i + 1;
    }
    false
}

/// The sentinel line for one shell command: the sentinel followed by the
/// command, and never an embedded newline.
pub fn run_line(cmd: &Vec<u8>) -> (r: Vec<u8>)
    requires
        !has_newline(cmd@),
    ensures
        r@ == sentinel() + cmd@,
        !has_newline(r@),
{
    let mut out: Vec<u8> = Vec::new();
    out.push(82);
    out.push(85);
    out.push(78);
    out.push(62);
    out.extend_from_slice(cmd.as_slice());
    proof {
        assert(out@ =~= sentinel() + cmd@);
        assert(forall|i: int| 0 <= i < 4 ==> out@[i] != 10);
        assert(forall|i: int| 4 <= i < out@.len() ==> out@[i] == cmd@[i - 4]);
    }
    out
}

/// The shell command that changes into `path`.
pub fn cd_command(path: &Vec<u8>) -> (r: Vec<u8>)
    ensures
        r@ == cd_prefix() + path@,
{
    let mut out: Vec<u8> = Vec::new();
    out.push(99);
    out.push(100);
    out.push(32);
    out.extend_from_slice(path.as_slice());
    proof {
        assert(out@ =~= cd_prefix() + path@);
    }
    out
}

impl Workspace {
    /// The protocol line that moves the caller's shell into this
    /// workspace's directory.
    pub fn open(&self) -> (r: Vec<u8>)
        requires
            !has_newline(self.path@),
        ensures
            r@ == sentinel() + cd_prefix() + self.path@,
            !has_newline(r@),
    {
        let cmd = cd_command(&self.path);
        proof {
            assert(!has_newline(cmd@));
            assert(sentinel() + (cd_prefix() + self.path@) =~= sentinel() + cd_prefix()
                + self.path@);
        }
        run_line(&cmd)
    }
}

} // verus!
