//! How the sections of a patch are compressed.

use vstd::prelude::*;
use crate::text::lower_chars;
use crate::text::spells;
use crate::text::to_lower_chars;

verus! {

#[derive(Clone, Copy, Debug, PartialEq, Eq, Structural)]
pub enum CompressionMode {
    Nocomp,
    Zstd,
    Zlib,
    Lz4,
}

impl Default for CompressionMode {
    fn default() -> (r: CompressionMode)
        ensures
            r == CompressionMode::Nocomp,
    {
        CompressionMode::Nocomp
    }
}

/// The mode that a name stands for, whatever the case of its letters.
pub open spec fn mode_of_name(s: Seq<char>) -> Option<CompressionMode> {
    let name = lower_chars(s);
    if name == ""@ || name == "nocomp"@ {
        Some(CompressionMode::Nocomp)
    } else if name == "zstd"@ {
        Some(CompressionMode::Zstd)
    } else if name == "zlib"@ {
        Some(CompressionMode::Zlib)
    } else if name == "lz4"@ {
        Some(CompressionMode::Lz4)
    } else {
        None
    }
}

impl CompressionMode {
    /// The mode named `s`.
    pub fn from_name(s: &str) -> (r: Option<CompressionMode>)
        ensures
            r == mode_of_name(s@),
    {
        let name = to_lower_chars(s);
        if spells(&name, "") || spells(&name, "nocomp") {
            Some(CompressionMode::Nocomp)
        } else if spells(&name, "zstd") {
            Some(CompressionMode::Zstd)
        } else if spells(&name, "zlib") {
            Some(CompressionMode::Zlib)
        } else if spells(&name, "lz4") {
            Some(CompressionMode::Lz4)
        } else {
            None
        }
    }

    /// The mode named `s`, or the reason why there is none.
    pub fn parse_name(s: &str) -> (r: Result<CompressionMode, String>)
        ensures
            match r {
                Ok(m) => mode_of_name(s@) == Some(m),
                Err(e) => mode_of_name(s@) is None && e@ == "unsupported compression mode: "@ + s@,
            },
    {
        match CompressionMode::from_name(s) {
            Some(m) => Ok(m),
            None => {
                let mut e = "unsupported compression mode: ".to_owned();
                e.append(s);
                Err(e)
            },
        }
    }

    /// The number of bytes that stand before the data of a compressed section.
    pub open spec fn spec_padding(self) -> u64 {
        if self == CompressionMode::Zlib {
            1
        } else {
            0
        }
    }

    /// The number of bytes that stand before the data of a compressed section:
    /// one byte of window bits for zlib, none for the other modes.
    pub fn padding(self) -> (r: u64)
        ensures
            r == self.spec_padding(),
    {
        match self {
            CompressionMode::Zlib => 1,
            _ => 0,
        }
    }
}

impl std::str::FromStr for CompressionMode {
    type Err = String;

    fn from_str(s: &str) -> (r: Result<CompressionMode, String>)
        ensures
            match r {
                Ok(m) => mode_of_name(s@) == Some(m),
                Err(e) => mode_of_name(s@) is None && e@ == "unsupported compression mode: "@ + s@,
            },
    {
        CompressionMode::parse_name(s)
    }
}

} // verus!
