//! Command line interface: output specifications and their parsing.
//!
//! A specification has the form `PORTS[:PATH]`: `PORTS` is the word `all`
//! (every port) or a comma-separated list of decimal stimulus port numbers,
//! and `PATH`, when present, is a file path; without it the output goes to
//! standard output.

use vstd::prelude::*;

use vstd::string::StringSliceAdditionalSpecFns;

use crate::PORTS_COUNT;

verus! {

/// Output specification.
#[derive(Debug)]
pub struct Output {
    /// Selected stimulus ports for the output. If the vector is empty, all
    /// ports are selected.
    pub ports: Vec<u8>,
    /// Path to a file for the output, as raw bytes, or standard output if
    /// `None`.
    pub path: Option<Vec<u8>>,
}

/// Command line arguments.
pub struct Cli {
    /// Log verbosity: how many times the flag was given.
    pub verbosity: u64,
    /// Input file path, as raw bytes, or standard input if `None`.
    pub input: Option<Vec<u8>>,
    /// Output specifications.
    pub outputs: Vec<Output>,
}

/// A command line parse error.
#[derive(Debug, Clone, Copy, PartialEq, Eq, Structural)]
pub enum CliError {
    /// A ports field holds something other than a decimal port number.
    InvalidPort,
    /// A port number names no stimulus port.
    PortOutOfRange,
}

impl CliError {
    /// A short description of the error.
    pub fn message(&self) -> &'static str {
        match self {
            CliError::InvalidPort => "invalid stimulus port number",
            CliError::PortOutOfRange => "stimulus port number can't be greater than 31",
        }
    }
}

/// All ports an output specification may select are below this bound.
pub open spec fn ports_in_range(ports: Seq<u8>) -> bool {
    forall|i: int| 0 <= i < ports.len() ==> (#[trigger] ports[i]) < PORTS_COUNT
}

/// A decimal digit byte.
pub open spec fn is_dec_digit(b: u8) -> bool {
    0x30 <= b <= 0x39
}

/// A non-empty, all-digit byte sequence.
pub open spec fn is_dec(bs: Seq<u8>) -> bool {
    bs.len() > 0 && forall|i: int| 0 <= i < bs.len() ==> is_dec_digit(#[trigger] bs[i])
}

/// The number the digit bytes spell.
pub open spec fn dec_value(bs: Seq<u8>) -> int
    decreases bs.len(),
{
    if bs.len() == 0 {
        0
    } else {
        dec_value(bs.drop_last()) * 10 + (bs.last() - 0x30)
    }
}

/// Whether a chunk names a valid stimulus port.
pub open spec fn port_ok(bs: Seq<u8>) -> bool {
    is_dec(bs) && dec_value(bs) < PORTS_COUNT as int
}

/// The error reported for an invalid chunk.
pub open spec fn port_err(bs: Seq<u8>) -> CliError {
    if !is_dec(bs) {
        CliError::InvalidPort
    } else {
        CliError::PortOutOfRange
    }
}

/// Index of the first `sep` in `bs`, or the length when there is none.
pub open spec fn first_sep(bs: Seq<u8>, sep: u8) -> nat
    decreases bs.len(),
{
    if bs.len() == 0 {
        0
    } else if bs[0] == sep {
        0
    } else {
        1 + first_sep(bs.drop_first(), sep)
    }
}

/// The chunks of `bs` between occurrences of `sep`; a trailing separator
/// yields a final empty chunk.
pub open spec fn split_on(bs: Seq<u8>, sep: u8) -> Seq<Seq<u8>>
    decreases bs.len(),
{
    let i = first_sep(bs, sep);
    if i >= bs.len() {
        seq![bs]
    } else {
        seq![bs.take(i as int)] + split_on(bs.skip(i as int + 1), sep)
    }
}

/// Whether every chunk of a ports field names a valid port.
pub open spec fn chunks_ok(cs: Seq<Seq<u8>>) -> bool {
    forall|i: int| 0 <= i < cs.len() ==> port_ok(#[trigger] cs[i])
}

/// The ports the chunks name, in order.
pub open spec fn chunk_ports(cs: Seq<Seq<u8>>) -> Seq<u8> {
    cs.map_values(|c: Seq<u8>| (dec_value(c) as u8))
}

/// Index of the first invalid chunk, or the length when all are valid.
pub open spec fn first_bad(cs: Seq<Seq<u8>>) -> int
    decreases cs.len(),
{
    if cs.len() == 0 {
        0
    } else if !port_ok(cs.first()) {
        0
    } else {
        1 + first_bad(cs.drop_first())
    }
}

/// The bytes of the wildcard word.
pub open spec fn all_bytes() -> Seq<u8> {
    seq![0x61u8, 0x6cu8, 0x6cu8]
}

/// Whether a ports field parses: the wildcard word, or all chunks valid.
pub open spec fn ports_spec_ok(bs: Seq<u8>) -> bool {
    bs == all_bytes() || chunks_ok(split_on(bs, 0x2c))
}

/// The port selection a valid ports field names: empty for the wildcard,
/// else the listed ports in order.
pub open spec fn ports_spec_value(bs: Seq<u8>) -> Seq<u8> {
    if bs == all_bytes() {
        Seq::<u8>::empty()
    } else {
        chunk_ports(split_on(bs, 0x2c))
    }
}

/// The error an invalid ports field reports: that of its first invalid
/// chunk.
pub open spec fn ports_spec_err(bs: Seq<u8>) -> CliError {
    port_err(split_on(bs, 0x2c)[first_bad(split_on(bs, 0x2c))])
}

/// The first separator is where scanning finds it.
proof fn lemma_first_sep_at(bs: Seq<u8>, sep: u8, k: int)
    requires
        0 <= k <= bs.len(),
        forall|m: int| 0 <= m < k ==> bs[m] != sep,
        k < bs.len() ==> bs[k] == sep,
    ensures
        first_sep(bs, sep) == k,
    decreases bs.len(),
{
    if bs.len() == 0 {
    } else if k == 0 {
    } else {
        assert(bs[0] != sep);
        assert(forall|m: int| 0 <= m < k - 1 ==> bs.drop_first()[m] == bs[m + 1]);
        lemma_first_sep_at(bs.drop_first(), sep, k - 1);
    }
}

/// The first invalid chunk is where scanning finds it.
proof fn lemma_first_bad_at(cs: Seq<Seq<u8>>, x: int)
    requires
        0 <= x < cs.len(),
        forall|y: int| 0 <= y < x ==> port_ok(#[trigger] cs[y]),
        !port_ok(cs[x]),
    ensures
        first_bad(cs) == x,
    decreases cs.len(),
{
    if x == 0 {
    } else {
        assert(port_ok(cs.first()));
        assert(forall|y: int| 0 <= y < cs.drop_first().len() ==> cs.drop_first()[y] == cs[y + 1]);
        lemma_first_bad_at(cs.drop_first(), x - 1);
    }
}

/// A fresh vector holding the bytes of `v`.
fn copy_slice(v: &[u8]) -> (r: Vec<u8>)
    ensures
        r@ == v@,
{
    let n: usize = v.len();
    let mut r: Vec<u8> = Vec::new();
    let mut i: usize = 0;
    while i < n
        invariant
            i <= n,
            n == v@.len(),
            r@ == v@.take(i as int),
        decreases n - i,
    {
        r.push(v[i]);
        i = i + 1;
        proof {
            assert(v@.take(i as int) =~= v@.take(i - 1) + seq![v@[i - 1]]);
        }
    }
    proof {
        assert(v@.take(n as int) =~= v@);
    }
    r
}

/// Parses a decimal stimulus port number from raw bytes.
pub fn parse_port_bytes(src: &[u8]) -> (r: Result<u8, CliError>)
    ensures
        port_ok(src@) ==> r == Ok::<u8, CliError>((dec_value(src@) as u8)),
        !port_ok(src@) ==> r == Err::<u8, CliError>(port_err(src@)),
{
    let n: usize = src.len();
    if n == 0 {
        return Err(CliError::InvalidPort);
    }
    let mut acc: u64 = 0;
    let mut i: usize = 0;
    while i < n
        invariant
            i <= n,
            n == src@.len(),
            n > 0,
            forall|k: int| 0 <= k < i ==> is_dec_digit(#[trigger] src@[k]),
            dec_value(src@.take(i as int)) < 1000 ==> acc == dec_value(src@.take(i as int)),
            dec_value(src@.take(i as int)) >= 1000 ==> acc >= 1000,
            acc <= 9999,
        decreases n - i,
    {
        let b = src[i];
        if b < 0x30 || b > 0x39 {
            return Err(CliError::InvalidPort);
        }
        let d: u64 = (b - 0x30) as u64;
        if acc < 1000 {
            acc = acc * 10 + d;
        }
        i = i + 1;
        proof {
            assert(src@.take(i as int).drop_last() =~= src@.take(i - 1));
            assert(src@.take(i as int).last() == src@[i - 1]);
        }
    }
    proof {
        assert(src@.take(n as int) =~= src@);
        assert(is_dec(src@));
    }
    if acc < PORTS_COUNT as u64 {
        Ok(acc as u8)
    } else {
        Err(CliError::PortOutOfRange)
    }
}

/// Parses a decimal stimulus port number.
pub fn parse_port(src: &str) -> (r: Result<u8, CliError>)
    ensures
        port_ok(src.spec_bytes()) ==> r == Ok::<u8, CliError>((dec_value(src.spec_bytes()) as u8)),
        !port_ok(src.spec_bytes()) ==> r == Err::<u8, CliError>(port_err(src.spec_bytes())),
{
    parse_port_bytes(src.as_bytes())
}

/// Parses a ports field from raw bytes: the wildcard word selects every port
/// (an empty selection), otherwise each comma-separated chunk names one
/// port.
pub fn parse_ports_bytes(src: &[u8]) -> (r: Result<Vec<u8>, CliError>)
    ensures
        ports_spec_ok(src@) ==> (r matches Ok(ports) && ports@ == ports_spec_value(src@)),
        !ports_spec_ok(src@) ==> r == Err::<Vec<u8>, CliError>(ports_spec_err(src@)),
{
    let n: usize = src.len();
    if n == 3 && src[0] == 0x61 && src[1] == 0x6c && src[2] == 0x6c {
        proof {
            assert(src@ =~= all_bytes());
        }
        return Ok(Vec::new());
    }
    proof {
        assert(src@ != all_bytes()) by {
            if src@ == all_bytes() {
                assert(src@.len() == 3);
                assert(src@[0] == 0x61 && src@[1] == 0x6c && src@[2] == 0x6c);
            }
        }
    }
    let ghost cs = split_on(src@, 0x2c);
    let mut ports: Vec<u8> = Vec::new();
    let mut pos: usize = 0;
    let ghost mut t: int = 0;
    proof {
        assert(src@.skip(0) =~= src@);
        assert(cs.take(0) =~= Seq::<Seq<u8>>::empty());
        assert(cs.take(0) + split_on(src@, 0x2c) =~= split_on(src@, 0x2c));
        assert(chunk_ports(cs.take(0)) =~= Seq::<u8>::empty());
    }
    loop
        invariant
            pos <= n,
            n == src@.len(),
            0 <= t,
            cs == split_on(src@, 0x2c),
            src@ != all_bytes(),
            t + split_on(src@.skip(pos as int), 0x2c).len() == cs.len(),
            cs == cs.take(t) + split_on(src@.skip(pos as int), 0x2c),
            chunks_ok(cs.take(t)),
            ports@ == chunk_ports(cs.take(t)),
        decreases n - pos,
    {
        let ghost pos0 = pos as int;
        let mut end: usize = pos;
        while end < n && src[end] != 0x2c
            invariant
                pos <= end <= n,
                n == src@.len(),
                forall|m: int| pos <= m < end ==> src@[m] != 0x2c,
            decreases n - end,
        {
            end = end + 1;
        }
        let ghost rem = src@.skip(pos0);
        proof {
            assert(forall|m: int| 0 <= m < end - pos0 ==> rem[m] == src@[m + pos0]);
            lemma_first_sep_at(rem, 0x2c, end - pos0);
        }
        let ghost chunk = rem.take(end - pos0);
        let chunk_res = parse_port_bytes(&src[pos..end]);
        proof {
            assert(src@.subrange(pos0, end as int) =~= chunk);
            if end - pos0 >= rem.len() {
                assert(chunk =~= rem);
                assert(split_on(rem, 0x2c) == seq![rem]);
                assert(split_on(rem, 0x2c) =~= seq![chunk]);
            } else {
                assert(split_on(rem, 0x2c) == seq![chunk] + split_on(
                    rem.skip(end - pos0 + 1),
                    0x2c,
                ));
            }
            assert(split_on(rem, 0x2c).len() >= 1);
            assert(t < cs.len());
            assert(cs[t] == chunk) by {
                assert(split_on(rem, 0x2c)[0] == chunk);
                assert(cs == cs.take(t) + split_on(rem, 0x2c));
            }
        }
        match chunk_res {
            Ok(p) => {
                ports.push(p);
                proof {
                    assert(port_ok(chunk)) by {
                        if !port_ok(chunk) {
                            assert(chunk_res == Err::<u8, CliError>(port_err(chunk)));
                        }
                    }
                    t = t + 1;
                    assert(cs.take(t) =~= cs.take(t - 1).push(chunk));
                    assert(chunks_ok(cs.take(t)));
                    assert(chunk_ports(cs.take(t)) =~= chunk_ports(cs.take(t - 1)).push(
                        (dec_value(chunk) as u8),
                    ));
                }
            }
            Err(e) => {
                proof {
                    assert(!port_ok(chunk)) by {
                        if port_ok(chunk) {
                            assert(chunk_res == Ok::<u8, CliError>((dec_value(chunk) as u8)));
                        }
                    }
                    assert(!port_ok(cs[t]));
                    assert(!chunks_ok(cs));
                    assert(!ports_spec_ok(src@));
                    assert(forall|y: int| 0 <= y < t ==> port_ok(#[trigger] cs[y])) by {
                        assert(forall|y: int| 0 <= y < t ==> cs[y] == cs.take(t)[y]);
                    }
                    lemma_first_bad_at(cs, t);
                    assert(e == ports_spec_err(src@));
                }
                return Err(e);
            }
        }
        if end == n {
            proof {
                assert(first_sep(rem, 0x2c) >= rem.len());
                assert(split_on(rem, 0x2c) == seq![rem]);
                assert(cs == cs.take(t - 1) + split_on(rem, 0x2c));
                assert(cs.len() == t);
                assert(cs.take(t) =~= cs);
                assert(ports@ == ports_spec_value(src@));
            }
            return Ok(ports);
        }
        pos = end + 1;
        proof {
            assert(end - pos0 < rem.len());
            assert(rem.skip(end - pos0 + 1) =~= src@.skip(pos as int));
            assert(split_on(rem, 0x2c) == seq![chunk] + split_on(src@.skip(pos as int), 0x2c));
            assert(cs.take(t - 1) + (seq![chunk] + split_on(src@.skip(pos as int), 0x2c)) =~= (
            cs.take(t - 1) + seq![chunk]) + split_on(src@.skip(pos as int), 0x2c));
            assert(cs.take(t) =~= cs.take(t - 1) + seq![chunk]);
            assert(cs == cs.take(t) + split_on(src@.skip(pos as int), 0x2c));
        }
    }
}

/// Parses a ports field.
pub fn parse_ports(src: &str) -> (r: Result<Vec<u8>, CliError>)
    ensures
        ports_spec_ok(src.spec_bytes()) ==> (r matches Ok(ports) && ports@ == ports_spec_value(
            src.spec_bytes(),
        )),
        !ports_spec_ok(src.spec_bytes()) ==> r == Err::<Vec<u8>, CliError>(
            ports_spec_err(src.spec_bytes()),
        ),
{
    parse_ports_bytes(src.as_bytes())
}

/// Parses one output specification, `PORTS[:PATH]`, from raw bytes: the part
/// before the first colon is the ports field, the rest, when a colon occurs,
/// the path.
pub fn parse_output(src: &[u8]) -> (r: Result<Output, CliError>)
    ensures
        ({
            let i = first_sep(src@, 0x3a) as int;
            let pp = src@.take(i);
            &&& (ports_spec_ok(pp) ==> (r matches Ok(out) && out.ports@ == ports_spec_value(pp) && (
            if i < src@.len() {
                out.path matches Some(path) && path@ == src@.skip(i + 1)
            } else {
                out.path is None
            })))
            &&& (!ports_spec_ok(pp) ==> (r matches Err(e) && e == ports_spec_err(pp)))
        }),
{
    let n: usize = src.len();
    let mut end: usize = 0;
    while end < n && src[end] != 0x3a
        invariant
            end <= n,
            n == src@.len(),
            forall|m: int| 0 <= m < end ==> src@[m] != 0x3a,
        decreases n - end,
    {
        end = end + 1;
    }
    proof {
        lemma_first_sep_at(src@, 0x3a, end as int);
        assert(src@.subrange(0, end as int) =~= src@.take(end as int));
    }
    let ports = match parse_ports_bytes(&src[0..end]) {
        Ok(ports) => ports,
        Err(e) => {
            return Err(e);
        }
    };
    if end < n {
        let path = copy_slice(&src[end + 1..n]);
        proof {
            assert(src@.subrange(end + 1, n as int) =~= src@.skip(end + 1));
        }
        Ok(Output { ports, path: Some(path) })
    } else {
        Ok(Output { ports, path: None })
    }
}

} // verus!
