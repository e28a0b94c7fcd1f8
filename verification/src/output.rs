//! Output-mode selection and progress accounting.
//!
//! The process runs either interactively or in a machine-readable mode; the
//! choice is read from the command-line arguments.  Progress is a plain
//! counter over a known total; rendering it is the caller's concern.

use vstd::prelude::*;

verus! {

/// How results are presented: for a person, or as machine-readable events.
#[derive(Clone, Copy, Debug, PartialEq, Eq, Structural)]
pub enum OutputMode {
    Interactive,
    Json,
}

/// The bytes of the flag that selects the mode.
pub open spec fn mode_flag() -> Seq<u8> {
    seq![0x2du8, 0x2du8, 0x6du8, 0x6fu8, 0x64u8, 0x65u8]
}

/// The bytes of the interactive mode's name.
pub open spec fn interactive_word() -> Seq<u8> {
    seq![
        0x69u8, 0x6eu8, 0x74u8, 0x65u8, 0x72u8, 0x61u8, 0x63u8, 0x74u8, 0x69u8, 0x76u8, 0x65u8,
    ]
}

/// A byte string with its ASCII capitals lowered; the mode value is read
/// without regard to ASCII case.
pub open spec fn ascii_lower(s: Seq<u8>) -> Seq<u8> {
    s.map_values(
        |b: u8|
            if 0x41 <= b && b <= 0x5a {
                (b + 0x20) as u8
            } else {
                b
            },
    )
}

/// The mode an argument value names, compared without regard to ASCII case:
/// anything but `interactive` is taken as the machine-readable mode, so a
/// typo never drives an interactive prompt into a pipe.
pub open spec fn mode_of_value(v: Seq<u8>) -> OutputMode {
    if ascii_lower(v) == interactive_word() {
        OutputMode::Interactive
    } else {
        OutputMode::Json
    }
}

/// Lowers a byte string's ASCII capitals.
fn to_ascii_lower(v: &[u8]) -> (out: Vec<u8>)
    ensures
        out@ == ascii_lower(v@),
{
    let mut out: Vec<u8> = Vec::new();
    let n = v.len();
    let mut i: usize = 0;
    while i < n
        invariant
            i <= n,
            n == v@.len(),
            out@.len() == i,
            forall|j: int|
                0 <= j < i ==> #[trigger] out@[j] == (if 0x41 <= v@[j] && v@[j] <= 0x5a {
                    (v@[j] + 0x20) as u8
                } else {
                    v@[j]
                }),
        decreases n - i,
    {
        let b = v[i];
        if 0x41 <= b && b <= 0x5a {
            out.push(b + 0x20);
        } else {
            out.push(b);
        }
        i = i + 1;
    }
    proof {
        assert(out@ =~= ascii_lower(v@));
    }
    out
}

/// The mode the arguments select: the value after the first `--mode`, or
/// the value inside the first `--mode=...`; with neither, interactive.
pub open spec fn detect_mode_spec(args: Seq<Vec<u8>>) -> OutputMode
    decreases args.len(),
{
    if args.len() == 0 {
        OutputMode::Interactive
    } else if args[0]@ == mode_flag() {
        if args.len() >= 2 {
            mode_of_value(args[1]@)
        } else {
            OutputMode::Json
        }
    } else if (mode_flag() + seq![0x3du8]).is_prefix_of(args[0]@) {
        mode_of_value(args[0]@.skip(7))
    } else {
        detect_mode_spec(args.skip(1))
    }
}

/// Reads the output mode from the arguments after the program name.
pub fn detect_mode_from_args(args: &Vec<Vec<u8>>) -> (out: OutputMode)
    requires
        args@.len() >= 1,
    ensures
        out == detect_mode_spec(args@.skip(1)),
{
    let flag: [u8; 6] = [0x2du8, 0x2du8, 0x6du8, 0x6fu8, 0x64u8, 0x65u8];
    let flag_eq: [u8; 7] = [0x2du8, 0x2du8, 0x6du8, 0x6fu8, 0x64u8, 0x65u8, 0x3du8];
    let inter: [u8; 11] = [
        0x69u8, 0x6eu8, 0x74u8, 0x65u8, 0x72u8, 0x61u8, 0x63u8, 0x74u8, 0x69u8, 0x76u8, 0x65u8,
    ];
    proof {
        assert(flag@ =~= mode_flag());
        assert(flag_eq@ =~= mode_flag() + seq![0x3du8]);
        assert(inter@ =~= interactive_word());
    }
    let n = args.len();
    let mut i: usize = 1;
    while i < n
        invariant
            1 <= i <= n,
            n == args@.len(),
            flag@ == mode_flag(),
            flag_eq@ == mode_flag() + seq![0x3du8],
            inter@ == interactive_word(),
            detect_mode_spec(args@.skip(1)) == detect_mode_spec(args@.skip(i as int)),
        decreases n - i,
    {
        proof {
            assert(args@.skip(i as int)[0] == args@[i as int]);
            assert(args@.skip(i as int).skip(1) =~= args@.skip(i + 1));
        }
        if crate::msgpack::bytes_eq(args[i].as_slice(), flag.as_slice()) {
            if i + 1 < n {
                proof {
                    assert(args@.skip(i as int)[1] == args@[i + 1]);
                }
                let lowered = to_ascii_lower(args[i + 1].as_slice());
                if crate::msgpack::bytes_eq(lowered.as_slice(), inter.as_slice()) {
                    return OutputMode::Interactive;
                } else {
                    return OutputMode::Json;
                }
            } else {
                return OutputMode::Json;
            }
        }
        if crate::backup::bytes_is_prefix(args[i].as_slice(), flag_eq.as_slice()) {
            let value = vstd::slice::slice_subrange(args[i].as_slice(), 7, args[i].len());
            proof {
                assert(value@ =~= args@[i as int]@.skip(7));
            }
            let lowered = to_ascii_lower(value);
            if crate::msgpack::bytes_eq(lowered.as_slice(), inter.as_slice()) {
                return OutputMode::Interactive;
            } else {
                return OutputMode::Json;
            }
        }
        i = i + 1;
    }
    proof {
        assert(args@.skip(n as int) =~= Seq::<Vec<u8>>::empty());
    }
    OutputMode::Interactive
}

/// A progress counter over a fixed total; how it is rendered is the
/// caller's concern.
pub struct JsonProgress {
    pub total: u64,
    pub processed: u64,
    pub message: Option<Vec<u8>>,
}

impl JsonProgress {
    /// A fresh counter over `total` units, nothing processed yet.
    pub fn new(total: u64) -> (out: JsonProgress)
        ensures
            out.total == total,
            out.processed == 0,
            out.message is None,
    {
        JsonProgress { total, processed: 0, message: None }
    }

    /// Replaces the progress message.
    pub fn set_message(&mut self, message: Vec<u8>)
        ensures
            final(self).message matches Some(m) && m@ == message@,
            final(self).total == old(self).total,
            final(self).processed == old(self).processed,
    {
        self.message = Some(message);
    }

    /// Counts `n` more units, holding at the ceiling rather than wrapping.
    pub fn inc_by(&mut self, n: u64)
        ensures
            final(self).processed == if old(self).processed + n <= u64::MAX {
                old(self).processed + n
            } else {
                u64::MAX as int
            },
            final(self).total == old(self).total,
            final(self).message == old(self).message,
    {
        if self.processed <= u64::MAX - n {
            self.processed = self.processed + n;
        } else {
            self.processed = u64::MAX;
        }
    }

    /// The whole percentage of units processed: zero of a zero total, and
    /// held at one hundred when more than the total was counted.
    pub fn percent(&self) -> (out: u64)
        ensures
            self.total == 0 ==> out == 0,
            self.total > 0 && self.processed <= self.total ==> out == (self.processed * 100) as int
                / self.total as int,
            self.total > 0 && self.processed > self.total ==> out == 100,
            out <= 100,
    {
        if self.total == 0 {
            0
        } else if self.processed >= self.total {
            proof {
                assert((self.total as int * 100) / (self.total as int) == 100) by (nonlinear_arith)
                    requires
                        self.total > 0,
                ;
            }
            100
        } else {
            let p = (self.processed as u128 * 100) / self.total as u128;
            proof {
                assert(self.processed as u128 * 100 <= u64::MAX as u128 * 100) by (nonlinear_arith)
                    requires
                        self.processed <= u64::MAX,
                ;
                assert((self.processed as int * 100) / (self.total as int) <= 100)
                    by (nonlinear_arith)
                    requires
                        self.processed <= self.total,
                        self.total > 0,
                ;
            }
            p as u64
        }
    }
}

} // verus!
