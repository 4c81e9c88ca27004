//! Stream status codes as the replica stores them: small tagged byte strings.

use vstd::prelude::*;

verus! {

/// Why a stream's head could not advance.
#[derive(Debug, Clone, Copy, PartialEq, Eq, Structural)]
pub enum HeadErr {
    Todo,
}

/// A version tag this software does not know, by the place it was found.
#[derive(Debug, Clone, Copy, PartialEq, Eq, Structural)]
pub enum UnknownSoftwareVersion {
    EntryType(u8),
    OpType(u8),
    CipherSuite(u8),
}

/// Why a stored status could not be decoded.
#[derive(Debug, Clone, Copy, PartialEq, Eq, Structural)]
pub enum StatusDecodeError {
    /// The bytes ended before the status did.
    UnexpectedEnd,
    /// The leading tag names no known status.
    UnknownTag(u8),
}

/// The bytes of a version: its tag, then the version number.
pub open spec fn usv_bytes(v: UnknownSoftwareVersion) -> Seq<u8> {
    match v {
        UnknownSoftwareVersion::EntryType(b) => seq![0u8, b],
        UnknownSoftwareVersion::OpType(b) => seq![1u8, b],
        UnknownSoftwareVersion::CipherSuite(b) => seq![2u8, b],
    }
}

/// Decoding a version from `bytes` at `pos`: the value and the position after
/// it, or the error and the position reading stopped at.
pub open spec fn usv_decode_spec(bytes: Seq<u8>, pos: int) -> (Result<UnknownSoftwareVersion, StatusDecodeError>, int) {
    if bytes.len() <= pos {
        (Err(StatusDecodeError::UnexpectedEnd), pos)
    } else if bytes.len() == pos + 1 {
        (Err(StatusDecodeError::UnexpectedEnd), pos + 1)
    } else {
        let tag = bytes[pos];
        let version = bytes[pos + 1];
        if tag == 0 {
            (Ok(UnknownSoftwareVersion::EntryType(version)), pos + 2)
        } else if tag == 1 {
            (Ok(UnknownSoftwareVersion::OpType(version)), pos + 2)
        } else if tag == 2 {
            (Ok(UnknownSoftwareVersion::CipherSuite(version)), pos + 2)
        } else {
            (Err(StatusDecodeError::UnknownTag(tag)), pos + 2)
        }
    }
}

impl HeadErr {
    /// Writes the status; it takes no bytes.
    pub fn encode(&self, out: &mut Vec<u8>)
        ensures
            final(out)@ == old(out)@,
    {
    }

    /// Reads the status, which takes no bytes.
    pub fn decode(input: &[u8], pos: &mut usize) -> (r: Result<HeadErr, StatusDecodeError>)
        ensures
            r == Ok::<HeadErr, StatusDecodeError>(HeadErr::Todo),
            *final(pos) == *old(pos),
    {
        Ok(HeadErr::Todo)
    }
}

impl UnknownSoftwareVersion {
    /// Appends the tag of the place (0 entry type, 1 op type, 2 cipher suite)
    /// and the version.
    pub fn encode(&self, out: &mut Vec<u8>)
        ensures
            final(out)@ == old(out)@ + usv_bytes(*self),
    {
        let (tag, version): (u8, u8) = match self {
            UnknownSoftwareVersion::EntryType(b) => (0, *b),
            UnknownSoftwareVersion::OpType(b) => (1, *b),
            UnknownSoftwareVersion::CipherSuite(b) => (2, *b),
        };
        out.push(tag);
        out.push(version);
        proof {
            assert(out@ =~= old(out)@ + usv_bytes(*self));
        }
    }

    /// Reads a version at `*pos`, moving `*pos` past what was read.
    pub fn decode(input: &[u8], pos: &mut usize) -> (r: Result<
        UnknownSoftwareVersion,
        StatusDecodeError,
    >)
        requires
            *old(pos) <= input@.len(),
        ensures
            (r, *final(pos) as int) == usv_decode_spec(input@, *old(pos) as int),
    {
        if *pos >= input.len() {
            return Err(StatusDecodeError::UnexpectedEnd);
        }
        let tag = input[*pos];
        *pos = *pos + 1;
        if *pos >= input.len() {
            return Err(StatusDecodeError::UnexpectedEnd);
        }
        let version = input[*pos];
        *pos = *pos + 1;
        match tag {
            0 => Ok(UnknownSoftwareVersion::EntryType(version)),
            1 => Ok(UnknownSoftwareVersion::OpType(version)),
            2 => Ok(UnknownSoftwareVersion::CipherSuite(version)),
            _ => Err(StatusDecodeError::UnknownTag(tag)),
        }
    }
}

/// Decoding what encoding wrote gives the same version back, whatever comes
/// before or after it, and reads exactly its bytes.
pub proof fn law_unknown_software_version_round_trip(
    v: UnknownSoftwareVersion,
    before: Seq<u8>,
    after: Seq<u8>,
)
    ensures
        usv_decode_spec(before + usv_bytes(v) + after, before.len() as int) == (
            Ok::<UnknownSoftwareVersion, StatusDecodeError>(v),
            before.len() + 2int,
        ),
{
    let b = before + usv_bytes(v) + after;
    assert(b[before.len() as int] == usv_bytes(v)[0]);
    assert(b[before.len() as int + 1] == usv_bytes(v)[1]);
}

} // verus!
