//! Output hashes that may follow a block's output end marker, under the
//! names `checksum` (MD5 in hex) and `sum` (MD5 in base64).
use vstd::prelude::*;

use crate::parse::checksum::{checksum_at_start, checksum_label, sum_label, Checksum, ChecksumKind};

verus! {

/// The kinds of output hash.
#[derive(Copy, Clone, Debug, PartialEq, Eq, Structural)]
pub enum OutputHashKind {
    Md5Hex,
    Md5Base64,
}

impl OutputHashKind {
    /// The label that introduces this kind of hash.
    pub open spec fn spec_label(self) -> Seq<char> {
        match self {
            OutputHashKind::Md5Hex => checksum_label(),
            OutputHashKind::Md5Base64 => sum_label(),
        }
    }

    /// The kind of checksum with the same label.
    pub open spec fn checksum_kind(self) -> ChecksumKind {
        match self {
            OutputHashKind::Md5Hex => ChecksumKind::Md5Hex,
            OutputHashKind::Md5Base64 => ChecksumKind::Md5Base64Prefix10Chars,
        }
    }

    /// The label that introduces this kind of hash (both from cog).
    pub fn label(&self) -> (res: &'static str)
        ensures
            res@ == self.spec_label(),
    {
        let res = match self {
            OutputHashKind::Md5Hex => "checksum",
            OutputHashKind::Md5Base64 => "sum",
        };
        proof {
            reveal_strlit("checksum");
            reveal_strlit("sum");
        }
        res
    }

    /// The kind a label introduces, if any.
    pub fn from_label(label: &str) -> (res: Option<OutputHashKind>)
        ensures
            res == (if label@ == checksum_label() {
                Some(OutputHashKind::Md5Hex)
            } else if label@ == sum_label() {
                Some(OutputHashKind::Md5Base64)
            } else {
                None
            }),
    {
        match ChecksumKind::from_label(label) {
            Some(ChecksumKind::Md5Hex) => Some(OutputHashKind::Md5Hex),
            Some(ChecksumKind::Md5Base64Prefix10Chars) => Some(OutputHashKind::Md5Base64),
            None => None,
        }
    }
}

/// An output hash found after a block's output end marker.
#[derive(Debug)]
pub struct OutputHash<'a> {
    pub kind: OutputHashKind,
    pub hash: &'a str,
}

impl<'a> OutputHash<'a> {
    /// The output hash with which the text after an output end marker starts,
    /// if any: spaces, `(`, a label, `:`, hash characters and `)`.
    pub fn from_block_suffix(block_sfx: &'a str) -> (res: Option<OutputHash<'a>>)
        ensures
            match checksum_at_start(block_sfx@) {
                Some((kind, a, b)) => res matches Some(h) && h.kind.checksum_kind() == kind && h.hash@
                    == block_sfx@.subrange(a, b),
                None => res is None,
            },
    {
        match Checksum::from_block_suffix(block_sfx) {
            Some(c) => {
                let kind = match c.kind {
                    ChecksumKind::Md5Hex => OutputHashKind::Md5Hex,
                    ChecksumKind::Md5Base64Prefix10Chars => OutputHashKind::Md5Base64,
                };
                Some(OutputHash { kind, hash: c.hash })
            },
            None => None,
        }
    }
}

} // verus!
