//! Permission bits recorded for a file.
//!
//! On hosts with POSIX modes the low nine bits are recorded as they are.
//! On hosts without them a mode is synthesized from the read-only flag and
//! the file name: a name with an executable extension gets the executable
//! bits, a writable file the write bits.

use vstd::prelude::*;

verus! {

/// The ASCII lowercase form of one byte.
pub open spec fn ascii_lower(b: u8) -> u8 {
    if 0x41 <= b <= 0x5a {
        (b + 0x20) as u8
    } else {
        b
    }
}

/// The ASCII lowercase form of a byte string.
pub open spec fn lower_ascii_of(s: Seq<u8>) -> Seq<u8> {
    s.map(|i: int, b: u8| ascii_lower(b))
}

/// The position of the last `.` in `s`, or -1 when none occurs.
pub open spec fn last_dot(s: Seq<u8>) -> int
    decreases s.len(),
{
    if s.len() == 0 {
        -1
    } else if s.last() == 0x2e {
        s.len() - 1
    } else {
        last_dot(s.drop_last())
    }
}

/// The extension of a file name: what follows the final `.`, when that dot
/// is not the name's first byte.  A name without one has the empty
/// extension.
pub open spec fn extension_of(name: Seq<u8>) -> Seq<u8> {
    if last_dot(name) >= 1 {
        name.skip(last_dot(name) + 1)
    } else {
        Seq::empty()
    }
}

/// Whether an extension, compared without case, marks an executable file:
/// one of `exe`, `bat`, `cmd`, `com`, `msi`, `ps1`.
pub open spec fn is_executable_extension(ext: Seq<u8>) -> bool {
    ||| lower_ascii_of(ext) == seq![101u8, 120u8, 101u8]
    ||| lower_ascii_of(ext) == seq![98u8, 97u8, 116u8]
    ||| lower_ascii_of(ext) == seq![99u8, 109u8, 100u8]
    ||| lower_ascii_of(ext) == seq![99u8, 111u8, 109u8]
    ||| lower_ascii_of(ext) == seq![109u8, 115u8, 105u8]
    ||| lower_ascii_of(ext) == seq![112u8, 115u8, 49u8]
}

/// The mode synthesized on a host without POSIX modes, from the read-only
/// flag and the file name's extension.
pub open spec fn synthesized_mode(name: Seq<u8>, readonly: bool) -> u32 {
    if readonly {
        if is_executable_extension(extension_of(name)) {
            0o555
        } else {
            0o444
        }
    } else {
        if is_executable_extension(extension_of(name)) {
            0o755
        } else {
            0o644
        }
    }
}

proof fn lemma_last_dot_bounds(s: Seq<u8>)
    ensures
        -1 <= last_dot(s) < s.len(),
        last_dot(s) >= 0 ==> s[last_dot(s)] == 0x2e,
        forall|j: int| last_dot(s) < j < s.len() ==> s[j] != 0x2e,
    decreases s.len(),
{
    if s.len() > 0 && s.last() != 0x2e {
        lemma_last_dot_bounds(s.drop_last());
        assert(forall|j: int| 0 <= j < s.len() - 1 ==> s[j] == s.drop_last()[j]);
    }
}

/// Finds the position after the last `.`, or zero when none occurs.
fn find_after_last_dot(s: &[u8]) -> (out: usize)
    ensures
        out == last_dot(s@) + 1,
{
    proof {
        lemma_last_dot_bounds(s@);
    }
    let mut i: usize = s.len();
    while i > 0
        invariant
            i <= s@.len(),
            forall|j: int| i <= j < s@.len() ==> s@[j] != 0x2e,
        decreases i,
    {
        if s[i - 1] == 0x2e {
            proof {
                lemma_last_dot_bounds(s@);
                assert(s@[i - 1] == 0x2e);
            }
            return i;
        }
        i = i - 1;
    }
    proof {
        assert(last_dot(s@) == -1) by {
            lemma_last_dot_bounds(s@);
        }
    }
    0
}

/// Lowercases an ASCII byte string.
fn to_lower_ascii(s: &[u8]) -> (out: Vec<u8>)
    ensures
        out@ == lower_ascii_of(s@),
{
    let mut out: Vec<u8> = Vec::new();
    let mut i: usize = 0;
    while i < s.len()
        invariant
            i <= s@.len(),
            out@ =~= lower_ascii_of(s@.take(i as int)),
        decreases s@.len() - i,
    {
        let b = s[i];
        if 0x41 <= b && b <= 0x5a {
            out.push(b + 0x20);
        } else {
            out.push(b);
        }
        proof {
            assert(out@ =~= lower_ascii_of(s@.take(i + 1)));
        }
        i = i + 1;
    }
    proof {
        assert(s@.take(s@.len() as int) =~= s@);
    }
    out
}

/// The permission bits recorded for a file on a host without POSIX modes,
/// synthesized from its name and read-only flag.
pub fn get_file_permissions_with_path(name: &[u8], readonly: bool) -> (out: u32)
    ensures
        out == synthesized_mode(name@, readonly),
{
    proof {
        lemma_last_dot_bounds(name@);
    }
    let after = find_after_last_dot(name);
    let executable = if after >= 2 {
        let ext = to_lower_ascii(vstd::slice::slice_subrange(name, after, name.len()));
        proof {
            assert(ext@ =~= lower_ascii_of(name@.skip(last_dot(name@) + 1)));
            assert(extension_of(name@) =~= name@.skip(last_dot(name@) + 1));
        }
        let exe: [u8; 3] = [101u8, 120u8, 101u8];
        let bat: [u8; 3] = [98u8, 97u8, 116u8];
        let cmd: [u8; 3] = [99u8, 109u8, 100u8];
        let com: [u8; 3] = [99u8, 111u8, 109u8];
        let msi: [u8; 3] = [109u8, 115u8, 105u8];
        let ps1: [u8; 3] = [112u8, 115u8, 49u8];
        proof {
            assert(exe@ =~= seq![101u8, 120u8, 101u8]);
            assert(bat@ =~= seq![98u8, 97u8, 116u8]);
            assert(cmd@ =~= seq![99u8, 109u8, 100u8]);
            assert(com@ =~= seq![99u8, 111u8, 109u8]);
            assert(msi@ =~= seq![109u8, 115u8, 105u8]);
            assert(ps1@ =~= seq![112u8, 115u8, 49u8]);
        }
        crate::msgpack::bytes_eq(ext.as_slice(), exe.as_slice()) || crate::msgpack::bytes_eq(
            ext.as_slice(),
            bat.as_slice(),
        ) || crate::msgpack::bytes_eq(ext.as_slice(), cmd.as_slice()) || crate::msgpack::bytes_eq(
            ext.as_slice(),
            com.as_slice(),
        ) || crate::msgpack::bytes_eq(ext.as_slice(), msi.as_slice()) || crate::msgpack::bytes_eq(
            ext.as_slice(),
            ps1.as_slice(),
        )
    } else {
        proof {
            assert(extension_of(name@) =~= Seq::<u8>::empty());
            assert(lower_ascii_of(Seq::<u8>::empty()) =~= Seq::<u8>::empty());
        }
        false
    };
    if readonly {
        if executable {
            0o555
        } else {
            0o444
        }
    } else {
        if executable {
            0o755
        } else {
            0o644
        }
    }
}

/// Whether recorded permission bits make a restored file read-only on a
/// host without POSIX modes: no write bit is set.
pub fn is_readonly_mode(mode: u32) -> (out: bool)
    ensures
        out == (mode & 0o222 == 0),
{
    mode & 0o222 == 0
}

} // verus!
