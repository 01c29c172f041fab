//! The line-source boundary: codec choice by file extension, and line
//! numbering for the lines an input file yields.

use vstd::prelude::*;

verus! {

use crate::Location;

/// The decompression applied to an input file, chosen from the file
/// name's extension.
#[derive(Clone, Copy, Debug, PartialEq, Eq)]
pub enum Codec {
    Gzip,
    Zstd,
    Plain,
}

/// An input whose lines cannot be streamed.
#[derive(Clone, Debug, PartialEq, Eq)]
pub enum Error {
    /// The path has no extension to choose a codec by, or does not name
    /// a regular file.
    InvalidPath(String),
}

/// The extension that the last `k` characters being dropped one by one
/// would find: the part after the last dot of the final name component,
/// unless that dot starts the component.
pub open spec fn ext_from(p: Seq<char>, k: int) -> Option<Seq<char>>
    decreases k,
{
    if k <= 0 {
        None
    } else if p[k - 1] == '/' {
        None
    } else if p[k - 1] == '.' {
        if k - 1 == 0 || p[k - 2] == '/' {
            None
        } else {
            Some(p.skip(k))
        }
    } else {
        ext_from(p, k - 1)
    }
}

/// The extension of a path's final name component; `None` when the
/// component holds no dot, or only a leading one. A trailing dot yields
/// an empty extension.
pub open spec fn ext_of(p: Seq<char>) -> Option<Seq<char>> {
    ext_from(p, p.len() as int)
}

/// The gzip extension, in any letter case.
pub open spec fn is_gz_ext(e: Seq<char>) -> bool {
    e.len() == 2 && (e[0] == 'g' || e[0] == 'G') && (e[1] == 'z' || e[1] == 'Z')
}

/// The zstandard extension, in any letter case.
pub open spec fn is_zst_ext(e: Seq<char>) -> bool {
    e.len() == 3 && (e[0] == 'z' || e[0] == 'Z') && (e[1] == 's' || e[1] == 'S') && (e[2] == 't'
        || e[2] == 'T')
}

/// Chooses the codec for an input file from its extension: gzip and
/// zstandard extensions get their codec, any other extension reads as
/// plain text. Fails exactly when the name has no extension.
pub fn codec_for_path(path: &str) -> (r: Result<Codec, Error>)
    ensures
        match r {
            Ok(c) => {
                &&& ext_of(path@) is Some
                &&& ({
                    let e = ext_of(path@)->Some_0;
                    match c {
                        Codec::Gzip => is_gz_ext(e),
                        Codec::Zstd => is_zst_ext(e),
                        Codec::Plain => !is_gz_ext(e) && !is_zst_ext(e),
                    }
                })
            },
            Err(Error::InvalidPath(p)) => p@ == path@ && ext_of(path@) is None,
        },
{
    let n = path.unicode_len();
    let mut k: usize = n;
    loop
        invariant
            k <= n,
            n == path@.len(),
            ext_from(path@, n as int) == ext_from(path@, k as int),
        decreases k,
    {
        if k == 0 {
            return Err(Error::InvalidPath(path.to_owned()));
        }
        let c = path.get_char(k - 1);
        if c == '/' {
            return Err(Error::InvalidPath(path.to_owned()));
        }
        if c == '.' {
            if k == 1 {
                return Err(Error::InvalidPath(path.to_owned()));
            }
            let before = path.get_char(k - 2);
            if before == '/' {
                return Err(Error::InvalidPath(path.to_owned()));
            }
            let ghost e = path@.skip(k as int);
            proof {
                assert(ext_of(path@) == Some(e));
                assert(e.len() == n - k);
            }
            let elen = n - k;
            if elen == 2 {
                let c0 = path.get_char(k);
                let c1 = path.get_char(k + 1);
                proof {
                    assert(e[0] == path@[k as int]);
                    assert(e[1] == path@[k + 1]);
                }
                if (c0 == 'g' || c0 == 'G') && (c1 == 'z' || c1 == 'Z') {
                    return Ok(Codec::Gzip);
                }
                return Ok(Codec::Plain);
            }
            if elen == 3 {
                let c0 = path.get_char(k);
                let c1 = path.get_char(k + 1);
                let c2 = path.get_char(k + 2);
                proof {
                    assert(e[0] == path@[k as int]);
                    assert(e[1] == path@[k + 1]);
                    assert(e[2] == path@[k + 2]);
                }
                if (c0 == 'z' || c0 == 'Z') && (c1 == 's' || c1 == 'S') && (c2 == 't' || c2
                    == 'T') {
                    return Ok(Codec::Zstd);
                }
                return Ok(Codec::Plain);
            }
            return Ok(Codec::Plain);
        }
        k = k - 1;
    }
}

/// Stamps the lines of one input file with 1-based line numbers, in file
/// order: the first line handed to it is line 1, the next line 2, and so
/// on.
pub struct LineReader {
    path: String,
    line_number: usize,
}

impl LineReader {
    /// The path of the file being read.
    pub closed spec fn path_view(self) -> Seq<char> {
        self.path@
    }

    /// How many lines have been stamped so far.
    pub closed spec fn lines_seen(self) -> usize {
        self.line_number
    }

    /// A reader for one file, with no lines stamped yet.
    pub fn new(path: &str) -> (r: Self)
        ensures
            r.path_view() == path@,
            r.lines_seen() == 0,
    {
        Self { path: path.to_owned(), line_number: 0 }
    }

    /// Stamps the next line with its number: line numbers start at 1 and
    /// increase by one per line.
    pub fn next(&mut self, line: String) -> (r: (usize, String))
        requires
            old(self).lines_seen() < usize::MAX,
        ensures
            final(self).lines_seen() == old(self).lines_seen() + 1,
            final(self).path_view() == old(self).path_view(),
            r.0 == old(self).lines_seen() + 1,
            r.1 == line,
    {
        self.line_number = self.line_number + 1;
        (self.line_number, line)
    }

    /// Where the most recently stamped line came from.
    pub fn location(&self) -> (r: Location)
        ensures
            r.path@ == self.path_view(),
            r.line_number == self.lines_seen(),
    {
        Location { path: self.path.clone(), line_number: self.line_number }
    }
}

} // verus!
