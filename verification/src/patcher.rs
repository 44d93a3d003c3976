//! The patcher: a working copy of an ELF image, its patch sites, and the
//! failures recorded so far.

use vstd::prelude::*;

use crate::image::{file_range, lemma_file_range_nonempty, ElfImage, SymbolEntry, SHN_UNDEF, STT_OBJECT, symbol_data_file_range};
use crate::reader::{
    entry_of, has_elf_header, image_of, nul_terminated_at, read_error, read_image, readable_string_at,
    elf_readable, elf_symtab_sections, ElfError, RawSymbol,
};
use vstd::utf8::{encode_utf8, encode_utf8_decode_utf8, encode_utf8_valid_utf8};
use crate::site::{apply_patch, overwrite, patch_check, reason_text, PatchFailureReason, PatchSite};
use crate::text::{debug_quoted, quoted};
use vstd::string::StringExecFns;

verus! {

/// A failed patch attempt, with the symbol name and the reason.
#[derive(Clone, Debug, PartialEq, Eq)]
pub struct PatchFailure {
    pub symbol_name: String,
    pub reason: PatchFailureReason,
}

/// The text of `f`, as the tool prints it: the name in `Debug` quotes, then the reason.
pub open spec fn failure_text(f: FailureView) -> Seq<char> {
    "failed to patch symbol "@ + debug_quoted(f.symbol_name) + ": "@ + reason_text(f.reason)
}

impl PatchFailure {
    /// The text of this failure, as the tool prints it.
    pub fn message(&self) -> (r: String)
        ensures
            r@ == failure_text(self@),
    {
        let mut s = "failed to patch symbol ".to_owned();
        s.append(quoted(self.symbol_name.as_str()).as_str());
        s.append(": ");
        s.append(self.reason.message().as_str());
        s
    }
}

/// A failure as a value: the name asked for and the reason.
pub struct FailureView {
    pub symbol_name: Seq<char>,
    pub reason: PatchFailureReason,
}

impl View for PatchFailure {
    type V = FailureView;

    open spec fn view(&self) -> FailureView {
        FailureView { symbol_name: self.symbol_name@, reason: self.reason }
    }
}

/// The failures of `f` as values.
pub open spec fn failure_views(f: Seq<PatchFailure>) -> Seq<FailureView> {
    f.map_values(|x: PatchFailure| x@)
}

/// A patch site together with the name of the symbol it belongs to.
#[derive(Clone, Debug)]
pub struct NamedSite {
    pub name: String,
    pub site: PatchSite,
}

/// Owns a working copy of an ELF image and the pre-resolved patch sites of its
/// object symbols.
///
/// Build it with [`ElfSymtabPatcher::new`] (reads the image once), apply
/// updates with [`patch_symbol`](Self::patch_symbol) (failures are recorded,
/// not fatal), then take the bytes and the failure list with
/// [`finish`](Self::finish).
pub struct ElfSymtabPatcher {
    buffer: Vec<u8>,
    sites: Vec<NamedSite>,
    unbacked: Vec<String>,
    failures: Vec<PatchFailure>,
}

/// The state of a patcher: the working bytes, the sites in symbol-table order
/// (a symbol name may occur more than once), the names of the defined object
/// symbols that no file bytes back, in symbol-table order, and the failures
/// in the order they were recorded.
pub struct PatcherView {
    pub buffer: Seq<u8>,
    pub sites: Seq<(Seq<char>, PatchSite)>,
    pub unbacked: Seq<Seq<char>>,
    pub failures: Seq<FailureView>,
}

impl View for ElfSymtabPatcher {
    type V = PatcherView;

    closed spec fn view(&self) -> PatcherView {
        PatcherView {
            buffer: self.buffer@,
            sites: self.sites@.map_values(|s: NamedSite| (s.name@, s.site)),
            unbacked: self.unbacked@.map_values(|s: String| s@),
            failures: self.failures@.map_values(|f: PatchFailure| f@),
        }
    }
}

/// The patch site of `sym`, if it is a defined, named object symbol whose
/// address a loadable segment maps to file bytes.
pub open spec fn symbol_site(image: ElfImage, sym: SymbolEntry) -> Option<(Seq<char>, PatchSite)> {
    if sym.st_symtype != STT_OBJECT || sym.st_shndx == SHN_UNDEF {
        None
    } else {
        match sym.name {
            None => None,
            Some(name) => match file_range(image, sym.st_shndx, sym.st_value) {
                Err(_) => None,
                Ok((start, end)) => Some(
                    (name@, PatchSite { start: start, container_end: end, st_size: sym.st_size }),
                ),
            },
        }
    }
}

/// The patch sites of `syms`, in table order.
pub open spec fn image_sites(image: ElfImage, syms: Seq<SymbolEntry>) -> Seq<(Seq<char>, PatchSite)>
    decreases syms.len(),
{
    if syms.len() == 0 {
        Seq::empty()
    } else {
        let before = image_sites(image, syms.drop_last());
        match symbol_site(image, syms.last()) {
            None => before,
            Some(s) => before.push(s),
        }
    }
}

/// The name of `sym`, if it is a defined, named object symbol that no
/// loadable segment backs with file bytes.
pub open spec fn symbol_unbacked(image: ElfImage, sym: SymbolEntry) -> Option<Seq<char>> {
    if sym.st_symtype != STT_OBJECT || sym.st_shndx == SHN_UNDEF {
        None
    } else {
        match sym.name {
            None => None,
            Some(name) => match file_range(image, sym.st_shndx, sym.st_value) {
                Err(_) => Some(name@),
                Ok(_) => None,
            },
        }
    }
}

/// The names of the defined object symbols of `syms` that no file bytes back, in table order.
pub open spec fn image_unbacked(image: ElfImage, syms: Seq<SymbolEntry>) -> Seq<Seq<char>>
    decreases syms.len(),
{
    if syms.len() == 0 {
        Seq::empty()
    } else {
        let before = image_unbacked(image, syms.drop_last());
        match symbol_unbacked(image, syms.last()) {
            None => before,
            Some(name) => before.push(name),
        }
    }
}

/// The image that the patcher reads out of the file `data`, where it can read one.
pub open spec fn input_image(data: Seq<u8>) -> ElfImage {
    choose|img: ElfImage| image_of(img, data)
}

/// The patch sites of the file `data`, in symbol-table order.
pub open spec fn input_sites(data: Seq<u8>) -> Seq<(Seq<char>, PatchSite)> {
    image_sites(input_image(data), input_image(data).symbols@)
}

/// The names of the defined object symbols of the file `data` that no file bytes back.
pub open spec fn input_unbacked(data: Seq<u8>) -> Seq<Seq<char>> {
    image_unbacked(input_image(data), input_image(data).symbols@)
}

/// The sites of `sites` named `name`, in order.
pub open spec fn sites_named(sites: Seq<(Seq<char>, PatchSite)>, name: Seq<char>) -> Seq<PatchSite>
    decreases sites.len(),
{
    if sites.len() == 0 {
        Seq::empty()
    } else {
        let before = sites_named(sites.drop_last(), name);
        if sites.last().0 == name {
            before.push(sites.last().1)
        } else {
            before
        }
    }
}

/// Writes `payload` at each of `sites` in turn and stops at the first one that
/// fails: the resulting bytes and the reason of the failure, if any.
pub open spec fn apply_sites(buf: Seq<u8>, sites: Seq<PatchSite>, payload: Seq<u8>) -> (Seq<u8>, Option<PatchFailureReason>)
    decreases sites.len(),
{
    if sites.len() == 0 {
        (buf, None)
    } else {
        match patch_check(buf.len() as int, sites[0], payload.len() as int) {
            Err(reason) => (buf, Some(reason)),
            Ok(_) => apply_sites(overwrite(buf, sites[0].start as int, payload), sites.drop_first(), payload),
        }
    }
}

impl PatcherView {
    /// The state after asking to write `payload` over the symbol `name`.
    pub open spec fn patched(self, name: Seq<char>, payload: Seq<u8>) -> PatcherView {
        let named = sites_named(self.sites, name);
        if named.len() == 0 {
            let reason = if self.unbacked.contains(name) {
                PatchFailureReason::NotFileBacked
            } else {
                PatchFailureReason::NotFound
            };
            PatcherView {
                buffer: self.buffer,
                sites: self.sites,
                unbacked: self.unbacked,
                failures: self.failures.push(FailureView { symbol_name: name, reason: reason }),
            }
        } else {
            let (buf, failed) = apply_sites(self.buffer, named, payload);
            PatcherView {
                buffer: buf,
                sites: self.sites,
                unbacked: self.unbacked,
                failures: match failed {
                    None => self.failures,
                    Some(reason) => self.failures.push(FailureView { symbol_name: name, reason: reason }),
                },
            }
        }
    }
}

/// Every site of `image` starts before the end of the segment that holds it.
pub proof fn lemma_image_sites_nonempty(image: ElfImage, syms: Seq<SymbolEntry>)
    ensures
        forall|k: int|
            0 <= k < image_sites(image, syms).len() ==> #[trigger] image_sites(image, syms)[k].1.start
                < image_sites(image, syms)[k].1.container_end,
    decreases syms.len(),
{
    if syms.len() > 0 {
        lemma_image_sites_nonempty(image, syms.drop_last());
        let sym = syms.last();
        lemma_file_range_nonempty(image, sym.st_shndx, sym.st_value);
        let before = image_sites(image, syms.drop_last());
        let all = image_sites(image, syms);
        assert forall|k: int| 0 <= k < all.len() implies #[trigger] all[k].1.start < all[k].1.container_end by {
            if k < before.len() {
                assert(all[k] == before[k]);
            }
        }
    }
}

/// `a` and `b` agree on every field and on the text of their names.
pub open spec fn same_symbol(a: SymbolEntry, b: SymbolEntry) -> bool {
    &&& a.st_symtype == b.st_symtype
    &&& a.st_shndx == b.st_shndx
    &&& a.st_value == b.st_value
    &&& a.st_size == b.st_size
    &&& match (a.name, b.name) {
        (None, None) => true,
        (Some(x), Some(y)) => x@ == y@,
        _ => false,
    }
}

/// A string of a string table ends at its first NUL.
proof fn lemma_nul_end_unique(data: Seq<u8>, offset: int, e1: int, e2: int)
    requires
        nul_terminated_at(data, offset, e1),
        nul_terminated_at(data, offset, e2),
    ensures
        e1 == e2,
{
    if e1 < e2 {
        assert(data[e1] != 0);
    } else if e2 < e1 {
        assert(data[e2] != 0);
    }
}

/// Two symbols read from the same table entry with the same string table agree.
proof fn lemma_entry_unique(a: SymbolEntry, b: SymbolEntry, raw: RawSymbol, strs: Seq<u8>)
    requires
        entry_of(a, raw, strs),
        entry_of(b, raw, strs),
    ensures
        same_symbol(a, b),
{
    let off = raw.st_name as int;
    match (a.name, b.name) {
        (Some(x), Some(y)) => {
            let e1 = choose|e: int| nul_terminated_at(strs, off, e) && encode_utf8(x@) == strs.subrange(off, e);
            let e2 = choose|e: int| nul_terminated_at(strs, off, e) && encode_utf8(y@) == strs.subrange(off, e);
            lemma_nul_end_unique(strs, off, e1, e2);
            encode_utf8_decode_utf8(x@);
            encode_utf8_decode_utf8(y@);
        },
        (Some(x), None) => {
            let e = choose|e: int| nul_terminated_at(strs, off, e) && encode_utf8(x@) == strs.subrange(off, e);
            encode_utf8_valid_utf8(x@);
            assert(readable_string_at(strs, off));
        },
        (None, Some(y)) => {
            let e = choose|e: int| nul_terminated_at(strs, off, e) && encode_utf8(y@) == strs.subrange(off, e);
            encode_utf8_valid_utf8(y@);
            assert(readable_string_at(strs, off));
        },
        (None, None) => {},
    }
}

/// Images that agree on their type, their program headers and, entry by
/// entry, their symbols have the same sites and the same unbacked names.
proof fn lemma_images_agree(a: ElfImage, b: ElfImage, sa: Seq<SymbolEntry>, sb: Seq<SymbolEntry>)
    requires
        a.e_type == b.e_type,
        a.segments is None <==> b.segments is None,
        a.segments matches Some(v) ==> v@ == b.segments->0@,
        sa.len() == sb.len(),
        forall|k: int| 0 <= k < sa.len() ==> same_symbol(#[trigger] sa[k], sb[k]),
    ensures
        image_sites(a, sa) == image_sites(b, sb),
        image_unbacked(a, sa) == image_unbacked(b, sb),
    decreases sa.len(),
{
    if sa.len() > 0 {
        let (pa, pb) = (sa.drop_last(), sb.drop_last());
        assert forall|k: int| 0 <= k < pa.len() implies same_symbol(#[trigger] pa[k], pb[k]) by {
            assert(pa[k] == sa[k] && pb[k] == sb[k]);
        }
        lemma_images_agree(a, b, pa, pb);
        let (x, y) = (sa.last(), sb.last());
        assert(same_symbol(x, y)) by {
            assert(x == sa[sa.len() - 1] && y == sb[sb.len() - 1]);
        }
        assert(file_range(a, x.st_shndx, x.st_value) == file_range(b, y.st_shndx, y.st_value));
        assert(symbol_site(a, x) == symbol_site(b, y));
        assert(symbol_unbacked(a, x) == symbol_unbacked(b, y));
    }
}

/// What the patcher reads of a file is a function of its bytes: any two
/// images read from the same bytes give the same sites and the same
/// unbacked names.
pub proof fn law_read_is_determined(a: ElfImage, b: ElfImage, data: Seq<u8>)
    requires
        image_of(a, data),
        image_of(b, data),
    ensures
        image_sites(a, a.symbols@) == image_sites(b, b.symbols@),
        image_unbacked(a, a.symbols@) == image_unbacked(b, b.symbols@),
{
    let (entries, strs) = elf_symtab_sections(data)->0->0;
    assert forall|k: int| 0 <= k < a.symbols@.len() implies same_symbol(#[trigger] a.symbols@[k], b.symbols@[k]) by {
        lemma_entry_unique(a.symbols@[k], b.symbols@[k], entries[k], strs);
    }
    lemma_images_agree(a, b, a.symbols@, b.symbols@);
}

impl ElfSymtabPatcher {
    /// Reads `input` once as an ELF image and builds a patcher over a copy of
    /// it: one site per defined, named object symbol of `.symtab` that a
    /// loadable segment maps to file bytes. It fails when the image cannot be
    /// parsed, its common sections cannot be found, or it has no `.symtab`
    /// (reported as `NoSymtabStrs`, as the two are found together).
    pub fn new(input: &[u8]) -> (r: Result<Self, ElfError>)
        ensures
            r is Ok <==> elf_readable(input@),
            r matches Err(e) ==> e == read_error(input@),
            !has_elf_header(input@) ==> r matches Err(ElfError::Parse),
            r matches Ok(p) ==> {
                &&& p@.buffer == input@
                &&& p@.sites == input_sites(input@)
                &&& p@.unbacked == input_unbacked(input@)
                &&& p@.failures.len() == 0
                &&& forall|k: int| 0 <= k < p@.sites.len() ==> #[trigger] p@.sites[k].1.start < p@.sites[k].1.container_end
            },
    {
        match read_image(input) {
            Err(e) => Err(e),
            Ok(image) => {
                let p = Self::from_image(input, &image);
                proof {
                    lemma_image_sites_nonempty(image, image.symbols@);
                    law_read_is_determined(image, input_image(input@), input@);
                }
                Ok(p)
            },
        }
    }

    /// Builds a patcher over a copy of `input`, whose ELF values `image` holds:
    /// one site per defined, named object symbol that a loadable segment maps to
    /// file bytes, in symbol-table order, and the names of the others; no failures yet.
    pub fn from_image(input: &[u8], image: &ElfImage) -> (r: Self)
        ensures
            r@.buffer == input@,
            r@.sites == image_sites(*image, image.symbols@),
            r@.unbacked == image_unbacked(*image, image.symbols@),
            r@.failures == Seq::<FailureView>::empty(),
    {
        let mut sites: Vec<NamedSite> = Vec::new();
        let mut unbacked: Vec<String> = Vec::new();
        let n = image.symbols.len();
        let mut i: usize = 0;
        while i < n
            invariant
                n == image.symbols@.len(),
                i <= n,
                sites@.map_values(|s: NamedSite| (s.name@, s.site)) == image_sites(
                    *image,
                    image.symbols@.subrange(0, i as int),
                ),
                unbacked@.map_values(|s: String| s@) == image_unbacked(*image, image.symbols@.subrange(0, i as int)),
            decreases n - i,
        {
            let sym = &image.symbols[i];
            proof {
                let pre = image.symbols@.subrange(0, i + 1);
                assert(pre.drop_last() =~= image.symbols@.subrange(0, i as int));
                assert(pre.last() == *sym);
            }
            let ghost before = sites@;
            let ghost before_unbacked = unbacked@;
            if sym.st_symtype == STT_OBJECT && sym.st_shndx != SHN_UNDEF {
                match &sym.name {
                    None => {},
                    Some(name) => {
                        match symbol_data_file_range(image, sym) {
                            Err(_) => {
                                unbacked.push(name.clone());
                                proof {
                                    assert(unbacked@.map_values(|s: String| s@) =~= before_unbacked.map_values(
                                        |s: String| s@,
                                    ).push(name@));
                                }
                            },
                            Ok((start, container_end)) => {
                                sites.push(
                                    NamedSite {
                                        name: name.clone(),
                                        site: PatchSite { start, container_end, st_size: sym.st_size },
                                    },
                                );
                                proof {
                                    assert(sites@.map_values(|s: NamedSite| (s.name@, s.site)) =~= before.map_values(
                                        |s: NamedSite| (s.name@, s.site),
                                    ).push(symbol_site(*image, *sym).unwrap()));
                                }
                            },
                        }
                    },
                }
            }
            i = i + 1;
        }
        proof {
            assert(image.symbols@.subrange(0, n as int) =~= image.symbols@);
        }
        let buffer = vstd::slice::slice_to_vec(input);
        let failures: Vec<PatchFailure> = Vec::new();
        let r = ElfSymtabPatcher { buffer, sites, unbacked, failures };
        proof {
            assert(r@.failures =~= Seq::<FailureView>::empty());
        }
        r
    }
}

impl ElfSymtabPatcher {
    /// The sites named `name`, in symbol-table order.
    fn sites_for(&self, name: &String) -> (r: Vec<PatchSite>)
        ensures
            r@ == sites_named(self@.sites, name@),
    {
        let mut r: Vec<PatchSite> = Vec::new();
        let n = self.sites.len();
        let mut i: usize = 0;
        while i < n
            invariant
                n == self.sites@.len(),
                i <= n,
                r@ == sites_named(self@.sites.subrange(0, i as int), name@),
            decreases n - i,
        {
            proof {
                let pre = self@.sites.subrange(0, i + 1);
                assert(pre.drop_last() =~= self@.sites.subrange(0, i as int));
                assert(pre.last() == (self.sites@[i as int].name@, self.sites@[i as int].site));
            }
            if self.sites[i].name == *name {
                r.push(self.sites[i].site);
            }
            i = i + 1;
        }
        proof {
            assert(self@.sites.subrange(0, n as int) =~= self@.sites);
        }
        r
    }

    /// Whether a defined object symbol named `name` has no file bytes behind it.
    fn is_unbacked(&self, name: &String) -> (r: bool)
        ensures
            r == self@.unbacked.contains(name@),
    {
        let n = self.unbacked.len();
        let mut i: usize = 0;
        while i < n
            invariant
                n == self@.unbacked.len(),
                i <= n,
                forall|j: int| 0 <= j < i ==> self@.unbacked[j] != name@,
            decreases n - i,
        {
            if self.unbacked[i] == *name {
                assert(self@.unbacked[i as int] == name@);
                return true;
            }
            i = i + 1;
        }
        false
    }

    /// Attempts to overwrite the bytes of the object symbol `symbol_name` with
    /// `replacement`, at every site of that name in symbol-table order.
    ///
    /// Failures (missing symbol, symbol with no file bytes, payload too large,
    /// out of range) are not fatal: the first one is appended to the failure list, the remaining
    /// sites of that name are left alone, and earlier patches stay.
    pub fn patch_symbol(&mut self, symbol_name: &str, replacement: &[u8]) -> (ret: &mut Self)
        ensures
            ret@ == old(self)@.patched(symbol_name@, replacement@),
            *final(self) == *final(ret),
    {
        let name = symbol_name.to_owned();
        let sites = self.sites_for(&name);
        if sites.len() == 0 {
            let reason = if self.is_unbacked(&name) {
                PatchFailureReason::NotFileBacked
            } else {
                PatchFailureReason::NotFound
            };
            let ghost before = self@;
            self.failures.push(PatchFailure { symbol_name: name, reason });
            proof {
                assert(self@.failures =~= before.failures.push(
                    FailureView { symbol_name: symbol_name@, reason: reason },
                ));
            }
            return self;
        }
        let ghost start = self@;
        let ghost named = sites@;
        let n = sites.len();
        let mut i: usize = 0;
        proof {
            assert(named.subrange(0, n as int) =~= named);
        }
        while i < n
            invariant
                n == sites@.len(),
                named == sites@,
                start == old(self)@,
                named == sites_named(start.sites, symbol_name@),
                name@ == symbol_name@,
                i <= n,
                self@.sites == start.sites,
                self@.unbacked == start.unbacked,
                self@.failures == start.failures,
                apply_sites(start.buffer, named, replacement@) == apply_sites(
                    self@.buffer,
                    named.subrange(i as int, n as int),
                    replacement@,
                ),
            decreases n - i,
        {
            let ghost rest = named.subrange(i as int, n as int);
            proof {
                assert(rest.len() > 0);
                assert(rest[0] == named[i as int]);
                assert(rest.drop_first() =~= named.subrange(i + 1, n as int));
            }
            match apply_patch(&mut self.buffer, &sites[i], replacement) {
                Ok(()) => {},
                Err(reason) => {
                    let ghost before = self@;
                    proof {
                        assert(apply_sites(self@.buffer, rest, replacement@) == (self@.buffer, Some(reason)));
                    }
                    self.failures.push(PatchFailure { symbol_name: name, reason });
                    proof {
                        assert(self@.failures =~= before.failures.push(
                            FailureView { symbol_name: symbol_name@, reason: reason },
                        ));
                    }
                    return self;
                },
            }
            i = i + 1;
        }
        proof {
            assert(named.subrange(n as int, n as int) =~= Seq::<PatchSite>::empty());
        }
        self
    }

    /// Failures recorded so far by [`patch_symbol`](Self::patch_symbol), in order.
    pub fn failures(&self) -> (r: &[PatchFailure])
        ensures
            r@.map_values(|f: PatchFailure| f@) == self@.failures,
    {
        self.failures.as_slice()
    }

    /// Consumes the patcher and returns the (possibly partially) patched bytes
    /// and the failures.
    pub fn finish(self) -> (r: (Vec<u8>, Vec<PatchFailure>))
        ensures
            r.0@ == self@.buffer,
            r.1@.map_values(|f: PatchFailure| f@) == self@.failures,
    {
        (self.buffer, self.failures)
    }
}

} // verus!
