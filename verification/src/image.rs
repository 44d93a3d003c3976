//! The values of an ELF image that the patcher reads, and how a symbol's
//! virtual address is mapped to a range of the file.

use vstd::prelude::*;

verus! {

/// `e_type` of an executable file.
pub const ET_EXEC: u16 = 2;

/// `p_type` of a loadable segment.
pub const PT_LOAD: u32 = 1;

/// `st_shndx` of a symbol that is not defined in this file.
pub const SHN_UNDEF: u16 = 0;

/// Symbol type (low nibble of `st_info`) of a data object.
pub const STT_OBJECT: u8 = 1;

/// One entry of the program header table.
#[derive(Clone, Copy, Debug, PartialEq, Eq)]
pub struct Segment {
    pub p_type: u32,
    pub p_offset: u64,
    pub p_vaddr: u64,
    pub p_filesz: u64,
    pub p_memsz: u64,
}

/// One entry of `.symtab`, with its name when the string table yields one.
#[derive(Clone, Debug, PartialEq, Eq)]
pub struct SymbolEntry {
    /// The name at `st_name` in the symbol string table, if that is a valid UTF-8 string.
    pub name: Option<String>,
    /// Symbol type: the low nibble of `st_info`.
    pub st_symtype: u8,
    pub st_shndx: u16,
    pub st_value: u64,
    pub st_size: u64,
}

/// What the patcher reads of an ELF image: its type, its program headers
/// (if it has a program header table) and its `.symtab` entries in table order.
#[derive(Clone, Debug, PartialEq, Eq)]
pub struct ElfImage {
    pub e_type: u16,
    pub segments: Option<Vec<Segment>>,
    pub symbols: Vec<SymbolEntry>,
}

/// Why no file range could be found for a symbol.
#[derive(Clone, Copy, Debug, PartialEq, Eq)]
pub enum RangeError {
    /// The symbol is not defined in this file (`st_shndx == SHN_UNDEF`).
    UndefinedSymbol,
    /// The image is not an executable (`ET_EXEC`): shared objects and
    /// relocatable files are not supported.
    UnsupportedType { e_type: u16 },
    /// The image has no program header table.
    NoProgramHeaders,
    /// `p_offset` plus the symbol's offset into the segment overflows `u64`.
    FileOffsetOverflow,
    /// `p_offset + p_filesz` overflows `u64`.
    SegmentRangeOverflow,
    /// The symbol's file offset does not fit in `usize`.
    StartTooLarge,
    /// The end of the segment's file range does not fit in `usize`.
    EndTooLarge,
    /// No loadable segment maps the address to bytes of the file.
    NotMapped { virtual_address: u64 },
}

/// What one program header says about a virtual address.
pub enum SegmentStep {
    /// The segment does not back the address with file bytes.
    Skip,
    /// The address is backed: `[start, end)` is the file range from the address to the segment's end.
    Found(usize, usize),
    /// The segment covers the address but its numbers do not fit.
    Fail(RangeError),
}

/// `a + b`, or `u64::MAX` where that overflows.
pub open spec fn saturating_sum(a: u64, b: u64) -> int {
    if a + b > u64::MAX {
        u64::MAX as int
    } else {
        a + b
    }
}

pub open spec fn segment_step(seg: Segment, va: u64) -> SegmentStep {
    let file_offset = seg.p_offset + (va - seg.p_vaddr);
    let file_end = seg.p_offset + seg.p_filesz;
    if seg.p_type != PT_LOAD || va < seg.p_vaddr || va >= saturating_sum(seg.p_vaddr, seg.p_memsz) {
        SegmentStep::Skip
    } else if file_offset > u64::MAX {
        SegmentStep::Fail(RangeError::FileOffsetOverflow)
    } else if file_end > u64::MAX {
        SegmentStep::Fail(RangeError::SegmentRangeOverflow)
    } else if file_offset >= file_end {
        SegmentStep::Skip
    } else if file_offset > usize::MAX {
        SegmentStep::Fail(RangeError::StartTooLarge)
    } else if file_end > usize::MAX {
        SegmentStep::Fail(RangeError::EndTooLarge)
    } else {
        SegmentStep::Found(file_offset as usize, file_end as usize)
    }
}

/// The outcome of the first segment, in table order, that does not skip `va`;
/// `None` when all of them skip it.
pub open spec fn first_segment_outcome(segs: Seq<Segment>, va: u64) -> Option<Result<(usize, usize), RangeError>>
    decreases segs.len(),
{
    if segs.len() == 0 {
        None
    } else {
        match segment_step(segs[0], va) {
            SegmentStep::Skip => first_segment_outcome(segs.drop_first(), va),
            SegmentStep::Found(start, end) => Some(Ok((start, end))),
            SegmentStep::Fail(e) => Some(Err(e)),
        }
    }
}

/// The `[start, end)` file range that may hold the bytes of a symbol with
/// section index `shndx` and value (virtual address) `va` in `image`.
pub open spec fn file_range(image: ElfImage, shndx: u16, va: u64) -> Result<(usize, usize), RangeError> {
    if shndx == SHN_UNDEF {
        Err(RangeError::UndefinedSymbol)
    } else if image.e_type != ET_EXEC {
        Err(RangeError::UnsupportedType { e_type: image.e_type })
    } else {
        match image.segments {
            None => Err(RangeError::NoProgramHeaders),
            Some(segs) => match first_segment_outcome(segs@, va) {
                None => Err(RangeError::NotMapped { virtual_address: va }),
                Some(r) => r,
            },
        }
    }
}

fn segment_step_exec(seg: &Segment, va: u64) -> (r: SegmentStep)
    ensures
        r == segment_step(*seg, va),
{
    if seg.p_type != PT_LOAD || va < seg.p_vaddr {
        return SegmentStep::Skip;
    }
    let seg_end_va = seg.p_vaddr.saturating_add(seg.p_memsz);
    if va >= seg_end_va {
        return SegmentStep::Skip;
    }
    let delta = va - seg.p_vaddr;
    let file_offset = match seg.p_offset.checked_add(delta) {
        Some(v) => v,
        None => {
            return SegmentStep::Fail(RangeError::FileOffsetOverflow);
        },
    };
    let file_end = match seg.p_offset.checked_add(seg.p_filesz) {
        Some(v) => v,
        None => {
            return SegmentStep::Fail(RangeError::SegmentRangeOverflow);
        },
    };
    if file_offset >= file_end {
        return SegmentStep::Skip;
    }
    if file_offset > usize::MAX as u64 {
        return SegmentStep::Fail(RangeError::StartTooLarge);
    }
    if file_end > usize::MAX as u64 {
        return SegmentStep::Fail(RangeError::EndTooLarge);
    }
    SegmentStep::Found(file_offset as usize, file_end as usize)
}

/// Resolves the `[start, end)` range of the file that may hold `sym`'s bytes
/// (`end` is exclusive): the first loadable segment that maps the symbol's
/// virtual address to file bytes gives it.
pub fn symbol_data_file_range(image: &ElfImage, sym: &SymbolEntry) -> (r: Result<(usize, usize), RangeError>)
    ensures
        r == file_range(*image, sym.st_shndx, sym.st_value),
{
    if sym.st_shndx == SHN_UNDEF {
        return Err(RangeError::UndefinedSymbol);
    }
    if image.e_type != ET_EXEC {
        return Err(RangeError::UnsupportedType { e_type: image.e_type });
    }
    let segments = match &image.segments {
        None => {
            return Err(RangeError::NoProgramHeaders);
        },
        Some(segments) => segments,
    };
    let va = sym.st_value;
    let n = segments.len();
    let mut i: usize = 0;
    proof {
        assert(segments@.subrange(0, n as int) =~= segments@);
    }
    while i < n
        invariant
            sym.st_shndx != SHN_UNDEF,
            image.e_type == ET_EXEC,
            va == sym.st_value,
            n == segments@.len(),
            i <= n,
            image.segments == Some(*segments),
            first_segment_outcome(segments@, va) == first_segment_outcome(segments@.subrange(i as int, n as int), va),
        decreases n - i,
    {
        let ghost rest = segments@.subrange(i as int, n as int);
        proof {
            assert(rest.len() > 0);
            assert(rest[0] == segments@[i as int]);
            assert(rest.drop_first() =~= segments@.subrange(i + 1, n as int));
        }
        match segment_step_exec(&segments[i], va) {
            SegmentStep::Skip => {},
            SegmentStep::Found(start, end) => {
                return Ok((start, end));
            },
            SegmentStep::Fail(e) => {
                return Err(e);
            },
        }
        i = i + 1;
    }
    proof {
        assert(segments@.subrange(n as int, n as int) =~= Seq::<Segment>::empty());
    }
    Err(RangeError::NotMapped { virtual_address: va })
}

/// A range found for a symbol is never empty: it starts before it ends.
pub proof fn lemma_file_range_nonempty(image: ElfImage, shndx: u16, va: u64)
    ensures
        file_range(image, shndx, va) matches Ok((start, end)) ==> start < end,
{
    if let Some(segs) = image.segments {
        lemma_first_outcome_nonempty(segs@, va);
    }
}

proof fn lemma_first_outcome_nonempty(segs: Seq<Segment>, va: u64)
    ensures
        first_segment_outcome(segs, va) matches Some(Ok((start, end))) ==> start < end,
    decreases segs.len(),
{
    if segs.len() > 0 {
        lemma_first_outcome_nonempty(segs.drop_first(), va);
    }
}

} // verus!
