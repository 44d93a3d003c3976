//! Writing a payload into the file-backed range of one symbol.

use vstd::prelude::*;
use vstd::string::StringExecFns;

use crate::text::{decimal, decimal_text};

verus! {

/// Why a patch attempt did not apply.
#[derive(Clone, Copy, Debug, PartialEq, Eq)]
pub enum PatchFailureReason {
    /// No defined `STT_OBJECT` symbol with that name was present at construction.
    NotFound,
    /// Defined `STT_OBJECT` symbols with that name were present at construction,
    /// but no file bytes back any of them: the image is not an executable, has
    /// no program headers, or no loadable segment holds the symbol's bytes in
    /// the file (as for a `.bss` object).
    NotFileBacked,
    /// The payload is longer than the symbol's non-zero `st_size`.
    TooLarge { patch_len: usize, symbol_size: u64 },
    /// The payload would write past the file-backed segment that holds the symbol.
    ExtendsPastContainer { start: usize, end: usize, container_end: usize },
    /// The payload would write past the end of the working buffer.
    ExtendsPastBuffer { start: usize, end: usize, buffer_len: usize },
    /// The end offset of the payload does not fit in `usize`.
    EndOverflow { start: usize, patch_len: usize },
}

/// The text of `reason`, as the tool prints it.
pub open spec fn reason_text(reason: PatchFailureReason) -> Seq<char> {
    match reason {
        PatchFailureReason::NotFound => "no object symbol with that name"@,
        PatchFailureReason::NotFileBacked => "object symbol has no file-backed bytes to overwrite"@,
        PatchFailureReason::TooLarge { patch_len, symbol_size } => "patch is "@ + decimal_text(patch_len as nat)
            + " bytes but symbol size is "@ + decimal_text(symbol_size as nat),
        PatchFailureReason::ExtendsPastContainer { start, end, container_end } => "patch ["@ + decimal_text(
            start as nat,
        ) + ", "@ + decimal_text(end as nat) + ") extends past symbol container ["@ + decimal_text(start as nat)
            + ", "@ + decimal_text(container_end as nat) + ")"@,
        PatchFailureReason::ExtendsPastBuffer { start, end, buffer_len } => "patch ["@ + decimal_text(start as nat)
            + ", "@ + decimal_text(end as nat) + ") extends past buffer length "@ + decimal_text(buffer_len as nat),
        PatchFailureReason::EndOverflow { start, patch_len } => "patch end overflow at start "@ + decimal_text(
            start as nat,
        ) + " len "@ + decimal_text(patch_len as nat),
    }
}

impl PatchFailureReason {
    /// The text of this reason, as the tool prints it.
    pub fn message(&self) -> (r: String)
        ensures
            r@ == reason_text(*self),
    {
        match *self {
            PatchFailureReason::NotFound => "no object symbol with that name".to_owned(),
            PatchFailureReason::NotFileBacked => "object symbol has no file-backed bytes to overwrite".to_owned(),
            PatchFailureReason::TooLarge { patch_len, symbol_size } => {
                let mut s = "patch is ".to_owned();
                s.append(decimal(patch_len as u64).as_str());
                s.append(" bytes but symbol size is ");
                s.append(decimal(symbol_size).as_str());
                s
            },
            PatchFailureReason::ExtendsPastContainer { start, end, container_end } => {
                let mut s = "patch [".to_owned();
                s.append(decimal(start as u64).as_str());
                s.append(", ");
                s.append(decimal(end as u64).as_str());
                s.append(") extends past symbol container [");
                s.append(decimal(start as u64).as_str());
                s.append(", ");
                s.append(decimal(container_end as u64).as_str());
                s.append(")");
                s
            },
            PatchFailureReason::ExtendsPastBuffer { start, end, buffer_len } => {
                let mut s = "patch [".to_owned();
                s.append(decimal(start as u64).as_str());
                s.append(", ");
                s.append(decimal(end as u64).as_str());
                s.append(") extends past buffer length ");
                s.append(decimal(buffer_len as u64).as_str());
                s
            },
            PatchFailureReason::EndOverflow { start, patch_len } => {
                let mut s = "patch end overflow at start ".to_owned();
                s.append(decimal(start as u64).as_str());
                s.append(" len ");
                s.append(decimal(patch_len as u64).as_str());
                s
            },
        }
    }
}

/// File-backed range where the bytes of a defined object symbol may be written.
#[derive(Clone, Copy, Debug, PartialEq, Eq)]
pub struct PatchSite {
    /// First offset of the symbol in the image.
    pub start: usize,
    /// Exclusive end of the file-backed part of the loadable segment that holds the symbol.
    pub container_end: usize,
    /// The symbol's `st_size`; 0 means the size is unknown and does not bound the payload.
    pub st_size: u64,
}

/// What writing `patch_len` bytes at `site` into a buffer of `buffer_len` bytes gives:
/// the first check that fails, in the order the patcher makes them, or `Ok`.
pub open spec fn patch_check(buffer_len: int, site: PatchSite, patch_len: int) -> Result<(), PatchFailureReason> {
    if patch_len == 0 {
        Ok(())
    } else if site.st_size > 0 && patch_len > site.st_size {
        Err(PatchFailureReason::TooLarge { patch_len: patch_len as usize, symbol_size: site.st_size })
    } else if site.start + patch_len > usize::MAX {
        Err(PatchFailureReason::EndOverflow { start: site.start, patch_len: patch_len as usize })
    } else if site.start + patch_len > site.container_end {
        Err(
            PatchFailureReason::ExtendsPastContainer {
                start: site.start,
                end: (site.start + patch_len) as usize,
                container_end: site.container_end,
            },
        )
    } else if site.start + patch_len > buffer_len {
        Err(
            PatchFailureReason::ExtendsPastBuffer {
                start: site.start,
                end: (site.start + patch_len) as usize,
                buffer_len: buffer_len as usize,
            },
        )
    } else {
        Ok(())
    }
}

/// `buf` with the bytes from `start` on replaced by `payload`; its length is unchanged.
pub open spec fn overwrite(buf: Seq<u8>, start: int, payload: Seq<u8>) -> Seq<u8> {
    Seq::new(
        buf.len(),
        |i: int|
            if start <= i < start + payload.len() {
                payload[i - start]
            } else {
                buf[i]
            },
    )
}

/// Writes `payload` at `site` in `buffer`, or reports the first check that fails
/// and leaves `buffer` as it was. An empty payload always succeeds and writes nothing.
pub fn apply_patch(buffer: &mut Vec<u8>, site: &PatchSite, payload: &[u8]) -> (r: Result<(), PatchFailureReason>)
    ensures
        r == patch_check(old(buffer)@.len() as int, *site, payload@.len() as int),
        r is Ok ==> final(buffer)@ == overwrite(old(buffer)@, site.start as int, payload@),
        r is Err ==> final(buffer)@ == old(buffer)@,
{
    let patch_len = payload.len();
    if patch_len == 0 {
        proof {
            assert(overwrite(buffer@, site.start as int, payload@) =~= buffer@);
        }
        return Ok(());
    }
    if site.st_size > 0 && patch_len as u64 > site.st_size {
        return Err(PatchFailureReason::TooLarge { patch_len, symbol_size: site.st_size });
    }
    let end = match site.start.checked_add(patch_len) {
        Some(end) => end,
        None => {
            return Err(PatchFailureReason::EndOverflow { start: site.start, patch_len });
        },
    };
    if end > site.container_end {
        return Err(
            PatchFailureReason::ExtendsPastContainer {
                start: site.start,
                end,
                container_end: site.container_end,
            },
        );
    }
    if end > buffer.len() {
        return Err(PatchFailureReason::ExtendsPastBuffer { start: site.start, end, buffer_len: buffer.len() });
    }
    let start = site.start;
    let mut i: usize = 0;
    while i < patch_len
        invariant
            start + patch_len == end,
            end <= buffer.len(),
            patch_len == payload@.len(),
            buffer@.len() == old(buffer)@.len(),
            i <= patch_len,
            forall|k: int|
                0 <= k < buffer@.len() ==> buffer@[k] == (if start <= k < start + i {
                    payload@[k - start]
                } else {
                    old(buffer)@[k]
                }),
        decreases patch_len - i,
    {
        buffer.set(start + i, payload[i]);
        i = i + 1;
    }
    proof {
        assert(buffer@ =~= overwrite(old(buffer)@, start as int, payload@));
    }
    Ok(())
}

} // verus!
