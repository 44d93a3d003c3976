//! Patching straight from the symbol table: each object symbol named in a
//! map of payloads is written in table order, and the first problem stops
//! the whole run.

use vstd::prelude::*;

use crate::entries::{pairs_map, Entries};
use crate::image::{file_range, symbol_data_file_range, ElfImage, RangeError, SymbolEntry, STT_OBJECT};
use crate::site::{apply_patch, overwrite, patch_check, PatchFailureReason, PatchSite};

verus! {

/// Why a payload could not be written straight over a symbol.
#[derive(Clone, Copy, Debug, PartialEq, Eq)]
pub enum SymbolPatchError {
    /// No file range could be found for the symbol.
    Range(RangeError),
    /// The payload does not fit the symbol, its segment or the buffer.
    Patch(PatchFailureReason),
}

/// What writing `len` bytes over `sym` gives: the first check that fails, or
/// the site to write at (`None` for an empty payload, which writes nothing).
/// The symbol's size is checked before its range is looked up.
pub open spec fn direct_check(image: ElfImage, buffer_len: int, sym: SymbolEntry, len: int) -> Result<Option<PatchSite>, SymbolPatchError> {
    if len == 0 {
        Ok(None)
    } else if sym.st_size > 0 && len > sym.st_size {
        Err(SymbolPatchError::Patch(PatchFailureReason::TooLarge { patch_len: len as usize, symbol_size: sym.st_size }))
    } else {
        match file_range(image, sym.st_shndx, sym.st_value) {
            Err(e) => Err(SymbolPatchError::Range(e)),
            Ok((start, end)) => {
                let site = PatchSite { start: start, container_end: end, st_size: sym.st_size };
                match patch_check(buffer_len, site, len) {
                    Err(reason) => Err(SymbolPatchError::Patch(reason)),
                    Ok(_) => Ok(Some(site)),
                }
            },
        }
    }
}

/// `buf` after writing `payload` as `check` decided.
pub open spec fn direct_result(buf: Seq<u8>, check: Result<Option<PatchSite>, SymbolPatchError>, payload: Seq<u8>) -> Seq<u8> {
    match check {
        Ok(Some(site)) => overwrite(buf, site.start as int, payload),
        _ => buf,
    }
}

/// Overwrites the bytes of `sym` in `buffer` with `payload`, or reports the
/// first check that fails and leaves `buffer` as it was.
pub fn patch_symbol(image: &ElfImage, buffer: &mut Vec<u8>, sym: &SymbolEntry, payload: &[u8]) -> (r: Result<(), SymbolPatchError>)
    ensures
        r matches Err(e) ==> direct_check(*image, old(buffer)@.len() as int, *sym, payload@.len() as int) == Err::<Option<PatchSite>, SymbolPatchError>(e),
        r is Ok ==> direct_check(*image, old(buffer)@.len() as int, *sym, payload@.len() as int) is Ok,
        final(buffer)@ == direct_result(old(buffer)@, direct_check(*image, old(buffer)@.len() as int, *sym, payload@.len() as int), payload@),
{
    if payload.len() == 0 {
        return Ok(());
    }
    if sym.st_size > 0 && payload.len() as u64 > sym.st_size {
        return Err(SymbolPatchError::Patch(PatchFailureReason::TooLarge { patch_len: payload.len(), symbol_size: sym.st_size }));
    }
    let (start, container_end) = match symbol_data_file_range(image, sym) {
        Ok(range) => range,
        Err(e) => {
            return Err(SymbolPatchError::Range(e));
        },
    };
    let site = PatchSite { start, container_end, st_size: sym.st_size };
    match apply_patch(buffer, &site, payload) {
        Ok(()) => Ok(()),
        Err(reason) => Err(SymbolPatchError::Patch(reason)),
    }
}

/// The outcome of writing, in table order, the payload that `m` gives for
/// each object symbol of `syms` that has a name in `m`: the bytes, and the
/// first failure with the symbol's name.
pub open spec fn direct_run(image: ElfImage, buf: Seq<u8>, syms: Seq<SymbolEntry>, m: Map<Seq<char>, Seq<u8>>) -> (Seq<u8>, Option<(Seq<char>, SymbolPatchError)>)
    decreases syms.len(),
{
    if syms.len() == 0 {
        (buf, None)
    } else {
        let sym = syms[0];
        match sym.name {
            Some(name) if sym.st_symtype == STT_OBJECT && m.dom().contains(name@) => {
                let check = direct_check(image, buf.len() as int, sym, m[name@].len() as int);
                match check {
                    Err(e) => (buf, Some((name@, e))),
                    Ok(_) => direct_run(image, direct_result(buf, check, m[name@]), syms.drop_first(), m),
                }
            },
            _ => direct_run(image, buf, syms.drop_first(), m),
        }
    }
}

/// Writes, in symbol-table order, the payload that `entries` gives for each
/// object symbol named there; the first failure stops the run and is
/// returned with the symbol's name.
pub fn patch_matching_symbols(image: &ElfImage, buffer: &mut Vec<u8>, entries: &Entries) -> (r: Result<(), (String, SymbolPatchError)>)
    ensures
        final(buffer)@ == direct_run(*image, old(buffer)@, image.symbols@, pairs_map(entries@)).0,
        r is Ok <==> direct_run(*image, old(buffer)@, image.symbols@, pairs_map(entries@)).1 is None,
        r matches Err((name, e)) ==> direct_run(*image, old(buffer)@, image.symbols@, pairs_map(entries@)).1 == Some((name@, e)),
{
    let ghost m = pairs_map(entries@);
    let ghost goal = direct_run(*image, old(buffer)@, image.symbols@, m);
    let n = image.symbols.len();
    let mut i: usize = 0;
    proof {
        assert(image.symbols@.subrange(0, n as int) =~= image.symbols@);
    }
    while i < n
        invariant
            n == image.symbols@.len(),
            i <= n,
            m == pairs_map(entries@),
            goal == direct_run(*image, old(buffer)@, image.symbols@, m),
            goal == direct_run(*image, buffer@, image.symbols@.subrange(i as int, n as int), m),
        decreases n - i,
    {
        let ghost rest = image.symbols@.subrange(i as int, n as int);
        proof {
            assert(rest.len() > 0);
            assert(rest[0] == image.symbols@[i as int]);
            assert(rest.drop_first() =~= image.symbols@.subrange(i + 1, n as int));
        }
        let sym = &image.symbols[i];
        if sym.st_symtype == STT_OBJECT {
            match &sym.name {
                None => {},
                Some(name) => {
                    match entries.get(name.as_str()) {
                        None => {},
                        Some(patch) => {
                            match patch_symbol(image, buffer, sym, patch.0.as_slice()) {
                                Ok(()) => {},
                                Err(e) => {
                                    return Err((name.clone(), e));
                                },
                            }
                        },
                    }
                },
            }
        }
        i = i + 1;
    }
    proof {
        assert(image.symbols@.subrange(n as int, n as int) =~= Seq::<SymbolEntry>::empty());
    }
    Ok(())
}

} // verus!
