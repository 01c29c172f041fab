//! Example key/path capabilities for colon-delimited records: one that
//! honours the contiguity obligation and one that deliberately breaks
//! it.

use vstd::prelude::*;

verus! {

use vstd::string::StringSliceAdditionalSpecFns;

use crate::Format;

/// A line that the key/path capability cannot handle: it has no colon,
/// its key is empty, or a key to map was empty.
#[derive(Clone, Copy, Debug, PartialEq, Eq)]
pub struct MalformedLine;

/// The position of the first colon in a line's bytes, scanning from
/// position `k`.
pub open spec fn first_colon(line: Seq<u8>, k: int) -> Option<int>
    decreases line.len() - k,
{
    if k < 0 || k >= line.len() {
        None
    } else if line[k] == 58u8 {
        Some(k)
    } else {
        first_colon(line, k + 1)
    }
}

/// The key a colon-delimited line carries: the bytes before the first
/// colon; `None` when there is no colon or nothing stands before it.
pub open spec fn colon_key(line: Seq<u8>) -> Option<Seq<u8>> {
    match first_colon(line, 0) {
        None => None,
        Some(i) => if i > 0 {
            Some(line.take(i))
        } else {
            None
        },
    }
}

/// Derives the key of a colon-delimited line: everything before the
/// first colon.
fn colon_key_of(line: &str) -> (r: Result<Vec<u8>, MalformedLine>)
    ensures
        match r {
            Ok(k) => colon_key(line.spec_bytes()) == Some(k@),
            Err(_) => colon_key(line.spec_bytes()) is None,
        },
{
    let bytes = line.as_bytes();
    let n = bytes.len();
    let mut i: usize = 0;
    while i < n && bytes[i] != 58u8
        invariant
            i <= n,
            n == bytes@.len(),
            first_colon(bytes@, 0) == first_colon(bytes@, i as int),
            forall|j: int| 0 <= j < i ==> bytes@[j] != 58u8,
        decreases n - i,
    {
        i = i + 1;
    }
    if i == n {
        proof {
            assert(first_colon(bytes@, i as int) is None);
        }
        return Err(MalformedLine);
    }
    proof {
        assert(first_colon(bytes@, i as int) == Some(i as int));
    }
    if i == 0 {
        return Err(MalformedLine);
    }
    let mut key: Vec<u8> = Vec::new();
    let mut j: usize = 0;
    while j < i
        invariant
            j <= i,
            i < bytes@.len(),
            key@ =~= bytes@.take(j as int),
        decreases i - j,
    {
        key.push(bytes[j]);
        j = j + 1;
    }
    proof {
        assert(key@ =~= bytes@.take(i as int));
    }
    Ok(key)
}

/// A colon-delimited capability that buckets keys into two output files
/// split at the letter `n`: every key below it derives one path, every
/// other key the other. The buckets are contiguous under ascending key
/// byte order, as the capability contract asks.
pub struct ColonKeyFormat;

impl Format for ColonKeyFormat {
    type Error = MalformedLine;

    open spec fn key_spec(line: Seq<u8>) -> Option<Seq<u8>> {
        colon_key(line)
    }

    open spec fn path_spec(key: Seq<u8>) -> Option<Seq<char>> {
        if key.len() == 0 {
            None
        } else if key[0] < 110u8 {
            Some("low.txt"@)
        } else {
            Some("high.txt"@)
        }
    }

    fn key(line: &str) -> (r: Result<Vec<u8>, MalformedLine>) {
        colon_key_of(line)
    }

    fn path(key: &[u8]) -> (r: Result<String, MalformedLine>) {
        if key.len() == 0 {
            Err(MalformedLine)
        } else if key[0] < 110u8 {
            Ok("low.txt".to_owned())
        } else {
            Ok("high.txt".to_owned())
        }
    }
}

/// A colon-delimited capability that buckets keys by the parity of their
/// first byte. Parity classes are not contiguous under ascending key
/// byte order, so this capability breaches the contiguity obligation:
/// it exists to exercise write-back's detection of a reappearing path.
pub struct ParityPathFormat;

impl Format for ParityPathFormat {
    type Error = MalformedLine;

    open spec fn key_spec(line: Seq<u8>) -> Option<Seq<u8>> {
        colon_key(line)
    }

    open spec fn path_spec(key: Seq<u8>) -> Option<Seq<char>> {
        if key.len() == 0 {
            None
        } else if key[0] % 2 == 0 {
            Some("even.txt"@)
        } else {
            Some("odd.txt"@)
        }
    }

    fn key(line: &str) -> (r: Result<Vec<u8>, MalformedLine>) {
        colon_key_of(line)
    }

    fn path(key: &[u8]) -> (r: Result<String, MalformedLine>) {
        if key.len() == 0 {
            Err(MalformedLine)
        } else if key[0] % 2 == 0 {
            Ok("even.txt".to_owned())
        } else {
            Ok("odd.txt".to_owned())
        }
    }
}

} // verus!
