//! What holds of every patch request, whatever the image and the payload.

use vstd::prelude::*;

use crate::image::{file_range, first_segment_outcome, segment_step, SegmentStep, ElfImage, Segment, SymbolEntry, ET_EXEC, PT_LOAD, SHN_UNDEF, STT_OBJECT};
use crate::run::patched_all;
use crate::direct::{direct_check, direct_result, direct_run};
use crate::patcher::{
    apply_sites, image_sites, image_unbacked, sites_named, symbol_site, symbol_unbacked, FailureView, PatcherView,
};
use crate::site::{overwrite, patch_check, PatchFailureReason, PatchSite};

verus! {

/// Byte `i` lies in the `len` bytes written at `site`.
pub open spec fn in_region(i: int, site: PatchSite, len: int) -> bool {
    site.start <= i < site.start + len
}

/// The `len` bytes written at `a` and at `b` do not overlap.
pub open spec fn disjoint_regions(a: PatchSite, b: PatchSite, len: int) -> bool {
    a.start + len <= b.start || b.start + len <= a.start
}

/// Writing at a list of sites keeps the length and touches no byte outside their regions.
pub proof fn lemma_apply_sites_frame(buf: Seq<u8>, sites: Seq<PatchSite>, payload: Seq<u8>)
    ensures
        apply_sites(buf, sites, payload).0.len() == buf.len(),
        forall|i: int|
            0 <= i < buf.len() && (forall|j: int| 0 <= j < sites.len() ==> !in_region(i, #[trigger] sites[j], payload.len() as int))
                ==> #[trigger] apply_sites(buf, sites, payload).0[i] == buf[i],
    decreases sites.len(),
{
    if sites.len() > 0 {
        if patch_check(buf.len() as int, sites[0], payload.len() as int) is Ok {
            let next = overwrite(buf, sites[0].start as int, payload);
            let rest = sites.drop_first();
            lemma_apply_sites_frame(next, rest, payload);
            assert forall|i: int|
                0 <= i < buf.len() && (forall|j: int| 0 <= j < sites.len() ==> !in_region(i, #[trigger] sites[j], payload.len() as int))
                implies #[trigger] apply_sites(buf, sites, payload).0[i] == buf[i] by {
                assert(!in_region(i, sites[0], payload.len() as int));
                assert forall|j: int| 0 <= j < rest.len() implies !in_region(i, #[trigger] rest[j], payload.len() as int) by {
                    assert(rest[j] == sites[j + 1]);
                }
            }
        }
    }
}

/// After a run over `sites` with no failure, each site that no later site
/// overlaps holds the payload.
pub proof fn lemma_apply_sites_write(buf: Seq<u8>, sites: Seq<PatchSite>, payload: Seq<u8>, k: int)
    requires
        apply_sites(buf, sites, payload).1 is None,
        payload.len() > 0,
        0 <= k < sites.len(),
        forall|j: int| k < j < sites.len() ==> disjoint_regions(sites[k], #[trigger] sites[j], payload.len() as int),
    ensures
        sites[k].start + payload.len() <= buf.len(),
        forall|t: int|
            0 <= t < payload.len() ==> #[trigger] apply_sites(buf, sites, payload).0[sites[k].start + t] == payload[t],
    decreases sites.len(),
{
    let len = payload.len() as int;
    let next = overwrite(buf, sites[0].start as int, payload);
    let rest = sites.drop_first();
    if patch_check(buf.len() as int, sites[0], len) is Err {
        assert(false);
    }
    if k == 0 {
        {
            lemma_apply_sites_frame(next, rest, payload);
            assert forall|t: int| 0 <= t < len implies #[trigger] apply_sites(buf, sites, payload).0[sites[k].start + t]
                == payload[t] by {
                let i = sites[0].start + t;
                assert forall|j: int| 0 <= j < rest.len() implies !in_region(i, #[trigger] rest[j], len) by {
                    assert(rest[j] == sites[j + 1]);
                    assert(disjoint_regions(sites[0], sites[j + 1], len));
                }
                assert(next[i] == payload[t]);
            }
        }
    } else {
        assert forall|j: int| k - 1 < j < rest.len() implies disjoint_regions(rest[k - 1], #[trigger] rest[j], len) by {
            assert(rest[j] == sites[j + 1]);
        }
        lemma_apply_sites_write(next, rest, payload, k - 1);
        assert(rest[k - 1] == sites[k]);
    }
}

/// Asking for a patch never changes the length of the image, never changes
/// the sites, and never drops or changes an earlier failure: the failure list
/// grows by at most one entry, which names the symbol asked for.
pub proof fn law_patch_keeps_shape(p: PatcherView, name: Seq<char>, payload: Seq<u8>)
    ensures
        p.patched(name, payload).buffer.len() == p.buffer.len(),
        p.patched(name, payload).sites == p.sites,
        p.failures.is_prefix_of(p.patched(name, payload).failures),
        p.patched(name, payload).failures.len() <= p.failures.len() + 1,
        p.patched(name, payload).failures.len() == p.failures.len() + 1 ==> p.patched(name, payload).failures.last().symbol_name
            == name,
{
    lemma_apply_sites_frame(p.buffer, sites_named(p.sites, name), payload);
}

/// A patch only writes inside the regions of the sites of that name: every
/// other byte of the image stays as it was, whether the patch succeeds or fails.
pub proof fn law_patch_frame(p: PatcherView, name: Seq<char>, payload: Seq<u8>, i: int)
    requires
        0 <= i < p.buffer.len(),
        forall|j: int|
            0 <= j < sites_named(p.sites, name).len() ==> !in_region(i, #[trigger] sites_named(p.sites, name)[j], payload.len() as int),
    ensures
        p.patched(name, payload).buffer[i] == p.buffer[i],
{
    lemma_apply_sites_frame(p.buffer, sites_named(p.sites, name), payload);
}

/// A patch that records no failure has written the payload at the sites of
/// that name: the bytes of each site that no later site of the name overlaps
/// read back as the payload.
pub proof fn law_patch_reads_back(p: PatcherView, name: Seq<char>, payload: Seq<u8>, k: int)
    requires
        p.patched(name, payload).failures.len() == p.failures.len(),
        payload.len() > 0,
        0 <= k < sites_named(p.sites, name).len(),
        forall|j: int|
            k < j < sites_named(p.sites, name).len() ==> disjoint_regions(
                sites_named(p.sites, name)[k],
                #[trigger] sites_named(p.sites, name)[j],
                payload.len() as int,
            ),
    ensures
        p.patched(name, payload).buffer.subrange(
            sites_named(p.sites, name)[k].start as int,
            sites_named(p.sites, name)[k].start + payload.len(),
        ) == payload,
{
    let named = sites_named(p.sites, name);
    let res = apply_sites(p.buffer, named, payload);
    if res.1 is Some {
        assert(p.patched(name, payload).failures.len() == p.failures.len() + 1);
    }
    lemma_apply_sites_write(p.buffer, named, payload, k);
    lemma_apply_sites_frame(p.buffer, named, payload);
    let start = named[k].start as int;
    assert forall|t: int| 0 <= t < payload.len() implies #[trigger] res.0.subrange(start, start + payload.len())[t] == payload[t] by {
        assert(res.0[start + t] == payload[t]);
    }
    assert(res.0.subrange(start, start + payload.len()) =~= payload);
}

/// A name that no defined object symbol carries is answered with a
/// `NotFound` failure and leaves the image as it was.
pub proof fn law_unknown_name(p: PatcherView, name: Seq<char>, payload: Seq<u8>)
    requires
        forall|j: int| 0 <= j < p.sites.len() ==> (#[trigger] p.sites[j]).0 != name,
        !p.unbacked.contains(name),
    ensures
        p.patched(name, payload).buffer == p.buffer,
        p.patched(name, payload).failures == p.failures.push(
            FailureView { symbol_name: name, reason: PatchFailureReason::NotFound },
        ),
{
    lemma_sites_named_empty(p.sites, name);
}

/// A name whose defined object symbols have no file bytes behind them is
/// answered with a `NotFileBacked` failure, never `NotFound`, and leaves the
/// image as it was.
pub proof fn law_unbacked_name(p: PatcherView, name: Seq<char>, payload: Seq<u8>)
    requires
        forall|j: int| 0 <= j < p.sites.len() ==> (#[trigger] p.sites[j]).0 != name,
        p.unbacked.contains(name),
    ensures
        p.patched(name, payload).buffer == p.buffer,
        p.patched(name, payload).failures == p.failures.push(
            FailureView { symbol_name: name, reason: PatchFailureReason::NotFileBacked },
        ),
{
    lemma_sites_named_empty(p.sites, name);
}

/// No site has a name that none of the sites carries.
pub proof fn lemma_sites_named_empty(sites: Seq<(Seq<char>, PatchSite)>, name: Seq<char>)
    requires
        forall|j: int| 0 <= j < sites.len() ==> (#[trigger] sites[j]).0 != name,
    ensures
        sites_named(sites, name).len() == 0,
    decreases sites.len(),
{
    if sites.len() > 0 {
        let before = sites.drop_last();
        assert forall|j: int| 0 <= j < before.len() implies (#[trigger] before[j]).0 != name by {
            assert(before[j] == sites[j]);
        }
        lemma_sites_named_empty(before, name);
        assert(sites.last() == sites[sites.len() - 1]);
    }
}

/// An empty payload never fails on a known name and leaves the image as it was.
pub proof fn law_empty_payload(p: PatcherView, name: Seq<char>)
    requires
        sites_named(p.sites, name).len() > 0,
    ensures
        p.patched(name, Seq::empty()).buffer == p.buffer,
        p.patched(name, Seq::empty()).failures == p.failures,
{
    lemma_apply_empty(p.buffer, sites_named(p.sites, name));
}

proof fn lemma_apply_empty(buf: Seq<u8>, sites: Seq<PatchSite>)
    ensures
        apply_sites(buf, sites, Seq::empty()) == (buf, Option::<PatchFailureReason>::None),
    decreases sites.len(),
{
    if sites.len() > 0 {
        assert(overwrite(buf, sites[0].start as int, Seq::empty()) =~= buf);
        lemma_apply_empty(buf, sites.drop_first());
    }
}

/// A run over `sites` that ends with no failure wrote within bounds at each
/// of them: never past the symbol's non-zero size, its segment's file
/// bytes, or the end of the buffer.
pub proof fn lemma_apply_sites_fits(buf: Seq<u8>, sites: Seq<PatchSite>, payload: Seq<u8>)
    requires
        apply_sites(buf, sites, payload).1 is None,
        payload.len() > 0,
    ensures
        forall|k: int|
            0 <= k < sites.len() ==> {
                &&& (#[trigger] sites[k]).st_size == 0 || payload.len() <= sites[k].st_size
                &&& sites[k].start + payload.len() <= sites[k].container_end
                &&& sites[k].start + payload.len() <= buf.len()
            },
    decreases sites.len(),
{
    if sites.len() > 0 {
        if patch_check(buf.len() as int, sites[0], payload.len() as int) is Err {
            assert(false);
        }
        let next = overwrite(buf, sites[0].start as int, payload);
        let rest = sites.drop_first();
        lemma_apply_sites_fits(next, rest, payload);
        assert forall|k: int| 0 < k < sites.len() implies sites[k] == rest[k - 1] by {}
    }
}

/// A patch that records no failure stayed within bounds at every site of the
/// name: the payload fits the symbol's non-zero `st_size`, the file bytes of
/// its segment, and the image.
pub proof fn law_successful_patch_fits(p: PatcherView, name: Seq<char>, payload: Seq<u8>, k: int)
    requires
        p.patched(name, payload).failures.len() == p.failures.len(),
        payload.len() > 0,
        0 <= k < sites_named(p.sites, name).len(),
    ensures
        sites_named(p.sites, name)[k].st_size == 0 || payload.len() <= sites_named(p.sites, name)[k].st_size,
        sites_named(p.sites, name)[k].start + payload.len() <= sites_named(p.sites, name)[k].container_end,
        sites_named(p.sites, name)[k].start + payload.len() <= p.buffer.len(),
{
    let named = sites_named(p.sites, name);
    if apply_sites(p.buffer, named, payload).1 is Some {
        assert(p.patched(name, payload).failures.len() == p.failures.len() + 1);
    }
    lemma_apply_sites_fits(p.buffer, named, payload);
    assert(named[k] == sites_named(p.sites, name)[k]);
}

/// `sym` is a defined object symbol named `name`.
pub open spec fn object_named(sym: SymbolEntry, name: Seq<char>) -> bool {
    &&& sym.st_symtype == STT_OBJECT
    &&& sym.st_shndx != SHN_UNDEF
    &&& sym.name matches Some(n) && n@ == name
}

/// `syms` holds a defined object symbol named `name`.
pub open spec fn has_object_named(syms: Seq<SymbolEntry>, name: Seq<char>) -> bool {
    exists|k: int| 0 <= k < syms.len() && object_named(#[trigger] syms[k], name)
}

/// A run over sites fails, if at all, for a reason about the payload and the
/// site: never `NotFound` or `NotFileBacked`.
proof fn lemma_apply_sites_reason(buf: Seq<u8>, sites: Seq<PatchSite>, payload: Seq<u8>)
    ensures
        apply_sites(buf, sites, payload).1 matches Some(r) ==> r != PatchFailureReason::NotFound && r
            != PatchFailureReason::NotFileBacked,
    decreases sites.len(),
{
    if sites.len() > 0 {
        lemma_apply_sites_reason(overwrite(buf, sites[0].start as int, payload), sites.drop_first(), payload);
    }
}

/// A defined object symbol named `name` leaves either a site or an unbacked
/// name of that name, and nothing else does.
proof fn lemma_object_named(image: ElfImage, syms: Seq<SymbolEntry>, name: Seq<char>)
    ensures
        has_object_named(syms, name) <==> (sites_named(image_sites(image, syms), name).len() > 0
            || image_unbacked(image, syms).contains(name)),
    decreases syms.len(),
{
    if syms.len() > 0 {
        let pre = syms.drop_last();
        let last = syms.last();
        lemma_object_named(image, pre, name);
        let last_named = object_named(last, name);
        if has_object_named(syms, name) && !last_named {
            let k = choose|k: int| 0 <= k < syms.len() && object_named(#[trigger] syms[k], name);
            assert(k < pre.len());
            assert(pre[k] == syms[k]);
        }
        if has_object_named(pre, name) {
            let k = choose|k: int| 0 <= k < pre.len() && object_named(#[trigger] pre[k], name);
            assert(syms[k] == pre[k]);
        }
        if last_named {
            assert(syms[syms.len() - 1] == last);
        }
        let before_sites = image_sites(image, pre);
        let before_unbacked = image_unbacked(image, pre);
        match symbol_site(image, last) {
            Some(s) => {
                assert(before_sites.push(s).drop_last() =~= before_sites);
            },
            None => {},
        }
        match symbol_unbacked(image, last) {
            Some(n) => {
                assert(before_unbacked.push(n)[before_unbacked.len() as int] == n);
                if before_unbacked.push(n).contains(name) && n != name {
                    let j = choose|j: int| 0 <= j < before_unbacked.push(n).len() && before_unbacked.push(n)[j] == name;
                    assert(before_unbacked[j] == name);
                }
                if before_unbacked.contains(name) {
                    let j = choose|j: int| 0 <= j < before_unbacked.len() && before_unbacked[j] == name;
                    assert(before_unbacked.push(n)[j] == name);
                }
            },
            None => {},
        }
    }
}

/// `NotFound` means what its name says: asking a patcher built from `image`
/// for `name` records a `NotFound` failure exactly when `image` holds no
/// defined object symbol named `name`.
pub proof fn law_not_found_iff_absent(
    image: ElfImage,
    buffer: Seq<u8>,
    failures: Seq<FailureView>,
    name: Seq<char>,
    payload: Seq<u8>,
)
    ensures
        ({
            let p = PatcherView {
                buffer: buffer,
                sites: image_sites(image, image.symbols@),
                unbacked: image_unbacked(image, image.symbols@),
                failures: failures,
            };
            let q = p.patched(name, payload);
            q.failures.len() == failures.len() + 1 && q.failures.last().reason == PatchFailureReason::NotFound
        }) <==> !has_object_named(image.symbols@, name),
{
    lemma_object_named(image, image.symbols@, name);
    lemma_apply_sites_reason(buffer, sites_named(image_sites(image, image.symbols@), name), payload);
}

/// Only executables (`ET_EXEC`) are patched: an image of any other type has
/// no patch site, so every name asked for is refused.
pub proof fn law_only_executables_have_sites(image: ElfImage, syms: Seq<SymbolEntry>)
    requires
        image.e_type != ET_EXEC,
    ensures
        image_sites(image, syms).len() == 0,
    decreases syms.len(),
{
    if syms.len() > 0 {
        law_only_executables_have_sites(image, syms.drop_last());
    }
}

/// Byte `i` lies in the `len` bytes written at `site`, and a payload of `len`
/// bytes fits there: within the symbol's non-zero `st_size`, within the file
/// bytes of its segment, and within a buffer of `buffer_len` bytes.
pub open spec fn fits_at(site: PatchSite, len: int, buffer_len: int, i: int) -> bool {
    &&& site.start <= i < site.start + len
    &&& site.st_size == 0 || len <= site.st_size
    &&& site.start + len <= site.container_end
    &&& site.start + len <= buffer_len
}

/// A run over `sites` changes a byte only where the payload fits at one of them.
proof fn lemma_apply_sites_changes_fit(buf: Seq<u8>, sites: Seq<PatchSite>, payload: Seq<u8>)
    ensures
        apply_sites(buf, sites, payload).0.len() == buf.len(),
        forall|i: int|
            0 <= i < buf.len() && #[trigger] apply_sites(buf, sites, payload).0[i] != buf[i] ==> exists|j: int|
                0 <= j < sites.len() && fits_at(#[trigger] sites[j], payload.len() as int, buf.len() as int, i),
    decreases sites.len(),
{
    if sites.len() > 0 {
        if patch_check(buf.len() as int, sites[0], payload.len() as int) is Ok {
            let next = overwrite(buf, sites[0].start as int, payload);
            let rest = sites.drop_first();
            lemma_apply_sites_changes_fit(next, rest, payload);
            assert forall|i: int|
                0 <= i < buf.len() && #[trigger] apply_sites(buf, sites, payload).0[i] != buf[i] implies exists|j: int|
                    0 <= j < sites.len() && fits_at(#[trigger] sites[j], payload.len() as int, buf.len() as int, i) by {
                if next[i] != buf[i] {
                    assert(fits_at(sites[0], payload.len() as int, buf.len() as int, i));
                } else {
                    let j = choose|j: int|
                        0 <= j < rest.len() && fits_at(#[trigger] rest[j], payload.len() as int, next.len() as int, i);
                    assert(sites[j + 1] == rest[j]);
                }
            }
        }
    }
}

/// What `reason` says of a payload of `len` bytes at `site` in a buffer of
/// `buffer_len` bytes holds there, with the numbers it carries.
pub open spec fn reason_holds(reason: PatchFailureReason, site: PatchSite, len: int, buffer_len: int) -> bool {
    match reason {
        PatchFailureReason::TooLarge { patch_len, symbol_size } => patch_len == len && symbol_size == site.st_size && 0
            < site.st_size < len,
        PatchFailureReason::EndOverflow { start, patch_len } => start == site.start && patch_len == len && site.start
            + len > usize::MAX,
        PatchFailureReason::ExtendsPastContainer { start, end, container_end } => start == site.start && end
            == site.start + len && container_end == site.container_end && end > container_end,
        PatchFailureReason::ExtendsPastBuffer { start, end, buffer_len: b } => start == site.start && end == site.start
            + len && b == buffer_len && end > buffer_len,
        _ => false,
    }
}

/// A run over `sites` that fails does so for a reason that holds at one of them.
proof fn lemma_apply_sites_reason_holds(buf: Seq<u8>, sites: Seq<PatchSite>, payload: Seq<u8>)
    requires
        payload.len() <= usize::MAX,
        buf.len() <= usize::MAX,
    ensures
        apply_sites(buf, sites, payload).1 matches Some(r) ==> exists|j: int|
            0 <= j < sites.len() && reason_holds(r, #[trigger] sites[j], payload.len() as int, buf.len() as int),
    decreases sites.len(),
{
    if sites.len() > 0 {
        match patch_check(buf.len() as int, sites[0], payload.len() as int) {
            Err(r) => {
                assert(reason_holds(r, sites[0], payload.len() as int, buf.len() as int));
            },
            Ok(_) => {
                let next = overwrite(buf, sites[0].start as int, payload);
                let rest = sites.drop_first();
                lemma_apply_sites_reason_holds(next, rest, payload);
                if let Some(r) = apply_sites(buf, sites, payload).1 {
                    let j = choose|j: int|
                        0 <= j < rest.len() && reason_holds(r, #[trigger] rest[j], payload.len() as int, next.len() as int);
                    assert(sites[j + 1] == rest[j]);
                }
            },
        }
    }
}

/// `site` is a site of `sites` carrying `name`.
pub open spec fn has_site(sites: Seq<(Seq<char>, PatchSite)>, name: Seq<char>, site: PatchSite) -> bool {
    exists|k: int| 0 <= k < sites.len() && #[trigger] sites[k] == (name, site)
}

/// Every site of `sites_named(sites, name)` is a site of `sites` carrying `name`.
proof fn lemma_sites_named_members(sites: Seq<(Seq<char>, PatchSite)>, name: Seq<char>)
    ensures
        forall|j: int| 0 <= j < sites_named(sites, name).len() ==> has_site(sites, name, #[trigger] sites_named(sites, name)[j]),
    decreases sites.len(),
{
    if sites.len() > 0 {
        let pre = sites.drop_last();
        lemma_sites_named_members(pre, name);
        let named = sites_named(sites, name);
        let before = sites_named(pre, name);
        assert forall|j: int| 0 <= j < named.len() implies has_site(sites, name, #[trigger] named[j]) by {
            if j < before.len() {
                assert(named[j] == before[j]);
                assert(has_site(pre, name, before[j]));
                let k = choose|k: int| 0 <= k < pre.len() && #[trigger] pre[k] == (name, before[j]);
                assert(sites[k] == pre[k]);
            } else {
                let last = sites.len() - 1;
                assert(sites[last] == sites.last());
                assert(sites.last().0 == name);
                assert(named == before.push(sites.last().1));
                assert(sites[last] == (name, named[j]));
            }
        }
    }
}

/// A patch writes a byte only where the payload fits a site of that name: it
/// never writes past a symbol's non-zero `st_size`, past the file bytes of
/// its segment, or past the image. So a check that fails writes nothing: a
/// payload longer than every site's non-zero `st_size` leaves the image as it was.
pub proof fn law_patch_writes_only_where_it_fits(p: PatcherView, name: Seq<char>, payload: Seq<u8>, i: int)
    requires
        0 <= i < p.buffer.len(),
        p.patched(name, payload).buffer[i] != p.buffer[i],
    ensures
        exists|k: int|
            0 <= k < p.sites.len() && (#[trigger] p.sites[k]).0 == name && fits_at(
                p.sites[k].1,
                payload.len() as int,
                p.buffer.len() as int,
                i,
            ),
{
    let named = sites_named(p.sites, name);
    lemma_apply_sites_changes_fit(p.buffer, named, payload);
    lemma_sites_named_members(p.sites, name);
    let j = choose|j: int| 0 <= j < named.len() && fits_at(#[trigger] named[j], payload.len() as int, p.buffer.len() as int, i);
    assert(has_site(p.sites, name, named[j]));
    let k = choose|k: int| 0 <= k < p.sites.len() && #[trigger] p.sites[k] == (name, named[j]);
    assert(fits_at(p.sites[k].1, payload.len() as int, p.buffer.len() as int, i));
}

/// A recorded failure tells the truth: `NotFound` when no site and no
/// unbacked symbol has the name, `NotFileBacked` when only unbacked symbols
/// have it, and otherwise a reason that holds, with the numbers it carries,
/// at a site of that name for this payload and this image (whose lengths,
/// as those of slices, fit in `usize`).
pub proof fn law_failure_reason_holds(p: PatcherView, name: Seq<char>, payload: Seq<u8>)
    requires
        p.patched(name, payload).failures.len() > p.failures.len(),
        payload.len() <= usize::MAX,
        p.buffer.len() <= usize::MAX,
    ensures
        ({
            let r = p.patched(name, payload).failures.last().reason;
            ||| r == PatchFailureReason::NotFound && sites_named(p.sites, name).len() == 0 && !p.unbacked.contains(name)
            ||| r == PatchFailureReason::NotFileBacked && sites_named(p.sites, name).len() == 0 && p.unbacked.contains(name)
            ||| exists|k: int|
                0 <= k < p.sites.len() && (#[trigger] p.sites[k]).0 == name && reason_holds(
                    r,
                    p.sites[k].1,
                    payload.len() as int,
                    p.buffer.len() as int,
                )
        }),
{
    let named = sites_named(p.sites, name);
    if named.len() > 0 {
        lemma_apply_sites_reason_holds(p.buffer, named, payload);
        lemma_sites_named_members(p.sites, name);
        let r = apply_sites(p.buffer, named, payload).1->0;
        let j = choose|j: int| 0 <= j < named.len() && reason_holds(r, #[trigger] named[j], payload.len() as int, p.buffer.len() as int);
        assert(has_site(p.sites, name, named[j]));
        let k = choose|k: int| 0 <= k < p.sites.len() && #[trigger] p.sites[k] == (name, named[j]);
        assert(p.sites[k].0 == name);
    }
}

/// `seg` is a loadable segment whose memory range holds `va`, and `[s, e)`
/// runs from `va`'s offset into the segment's file bytes to their end.
pub open spec fn segment_holds(seg: Segment, va: u64, s: int, e: int) -> bool {
    &&& seg.p_type == PT_LOAD
    &&& seg.p_vaddr <= va && va < seg.p_vaddr + seg.p_memsz
    &&& s == seg.p_offset + (va - seg.p_vaddr)
    &&& e == seg.p_offset + seg.p_filesz
    &&& s < e
}

/// `seg` is a loadable segment that backs `va` with file bytes: its memory
/// range (capped at the largest address) holds `va`, and `va`'s offset into
/// the segment is below its file size.
pub open spec fn backs(seg: Segment, va: u64) -> bool {
    &&& seg.p_type == PT_LOAD
    &&& seg.p_vaddr <= va && va < seg.p_vaddr + seg.p_memsz && va < u64::MAX
    &&& va - seg.p_vaddr < seg.p_filesz
}

/// The range found for an address comes from the first segment, in table
/// order, that backs it with file bytes.
proof fn lemma_first_outcome_offset(segs: Seq<Segment>, va: u64)
    ensures
        first_segment_outcome(segs, va) matches Some(Ok((s, e))) ==> exists|k: int|
            0 <= k < segs.len() && segment_holds(#[trigger] segs[k], va, s as int, e as int) && forall|k2: int|
                0 <= k2 < k ==> !backs(#[trigger] segs[k2], va),
    decreases segs.len(),
{
    if segs.len() > 0 {
        let rest = segs.drop_first();
        lemma_first_outcome_offset(rest, va);
        match segment_step(segs[0], va) {
            SegmentStep::Found(s, e) => {
                assert(segment_holds(segs[0], va, s as int, e as int));
            },
            SegmentStep::Fail(_) => {},
            SegmentStep::Skip => {
                assert(!backs(segs[0], va));
                if let Some(Ok((s, e))) = first_segment_outcome(rest, va) {
                    let k = choose|k: int|
                        0 <= k < rest.len() && segment_holds(#[trigger] rest[k], va, s as int, e as int) && forall|k2: int|
                            0 <= k2 < k ==> !backs(#[trigger] rest[k2], va);
                    assert(segs[k + 1] == rest[k]);
                    assert forall|k2: int| 0 <= k2 < k + 1 implies !backs(#[trigger] segs[k2], va) by {
                        if k2 > 0 {
                            assert(segs[k2] == rest[k2 - 1]);
                        }
                    }
                }
            },
        }
    }
}

/// A file range found for a symbol is where its address lies in a loadable
/// segment of an executable: the first `PT_LOAD` segment, in table order,
/// that backs the address with file bytes gives it; the range starts at
/// `p_offset + (va - p_vaddr)` and ends where that segment's file bytes end
/// (`p_offset + p_filesz`), after its start.
pub proof fn law_file_range_is_segment_offset(image: ElfImage, shndx: u16, va: u64)
    ensures
        file_range(image, shndx, va) matches Ok((s, e)) ==> {
            &&& shndx != SHN_UNDEF
            &&& image.e_type == ET_EXEC
            &&& image.segments is Some
            &&& exists|k: int|
                0 <= k < image.segments->0@.len() && segment_holds(
                    #[trigger] image.segments->0@[k],
                    va,
                    s as int,
                    e as int,
                ) && forall|k2: int| 0 <= k2 < k ==> !backs(#[trigger] image.segments->0@[k2], va)
        },
{
    if let Some(segs) = image.segments {
        lemma_first_outcome_offset(segs@, va);
    }
}

/// Applying a map asks for its pairs one after another, each name with its
/// own payload: applying `pairs` and then `(name, payload)` is applying
/// `pairs` and then asking for `name` with `payload`; an empty map changes nothing.
pub proof fn law_patch_all_step(p: PatcherView, pairs: Seq<(Seq<char>, Seq<u8>)>, name: Seq<char>, payload: Seq<u8>)
    ensures
        patched_all(p, Seq::empty()) == p,
        patched_all(p, pairs.push((name, payload))) == patched_all(p, pairs).patched(name, payload),
{
    assert(pairs.push((name, payload)).drop_last() =~= pairs);
}

/// A run straight over the table may write byte `i` for `sym`: `sym` is an
/// `STT_OBJECT` symbol whose name has a payload in `m`, it has a file range,
/// and `i` lies in the payload's bytes from the start of that range.
pub open spec fn written_for(image: ElfImage, sym: SymbolEntry, m: Map<Seq<char>, Seq<u8>>, i: int) -> bool {
    match sym.name {
        Some(n) => sym.st_symtype == STT_OBJECT && m.dom().contains(n@) && match file_range(
            image,
            sym.st_shndx,
            sym.st_value,
        ) {
            Ok((s, _)) => s <= i < s + m[n@].len(),
            Err(_) => false,
        },
        None => false,
    }
}

/// Where the file range of `sym` starts, if it has one.
pub open spec fn range_start(image: ElfImage, sym: SymbolEntry) -> int {
    match file_range(image, sym.st_shndx, sym.st_value) {
        Ok((s, _)) => s as int,
        Err(_) => 0,
    }
}

/// A run straight over the table keeps the length of the image and changes
/// only bytes of the file ranges of `STT_OBJECT` symbols whose names have a
/// payload in `m`, within that payload's length: symbols of any other type,
/// and names with no payload, are left alone.
pub proof fn law_direct_run_frame(image: ElfImage, buf: Seq<u8>, syms: Seq<SymbolEntry>, m: Map<Seq<char>, Seq<u8>>)
    ensures
        direct_run(image, buf, syms, m).0.len() == buf.len(),
        forall|i: int|
            0 <= i < buf.len() && #[trigger] direct_run(image, buf, syms, m).0[i] != buf[i] ==> exists|j: int|
                0 <= j < syms.len() && written_for(image, #[trigger] syms[j], m, i),
    decreases syms.len(),
{
    if syms.len() > 0 {
        let sym = syms[0];
        let rest = syms.drop_first();
        let selected = sym.name matches Some(n) && sym.st_symtype == STT_OBJECT && m.dom().contains(n@);
        if selected {
            let n = sym.name->0;
            let check = direct_check(image, buf.len() as int, sym, m[n@].len() as int);
            if check is Ok {
                let next = direct_result(buf, check, m[n@]);
                law_direct_run_frame(image, next, rest, m);
                assert forall|i: int|
                    0 <= i < buf.len() && #[trigger] direct_run(image, buf, syms, m).0[i] != buf[i] implies exists|j: int|
                        0 <= j < syms.len() && written_for(image, #[trigger] syms[j], m, i) by {
                    if next[i] != buf[i] {
                        assert(written_for(image, syms[0], m, i));
                    } else {
                        let j = choose|j: int| 0 <= j < rest.len() && written_for(image, #[trigger] rest[j], m, i);
                        assert(syms[j + 1] == rest[j]);
                    }
                }
            }
        } else {
            law_direct_run_frame(image, buf, rest, m);
            assert forall|i: int|
                0 <= i < buf.len() && #[trigger] direct_run(image, buf, syms, m).0[i] != buf[i] implies exists|j: int|
                    0 <= j < syms.len() && written_for(image, #[trigger] syms[j], m, i) by {
                let j = choose|j: int| 0 <= j < rest.len() && written_for(image, #[trigger] rest[j], m, i);
                assert(syms[j + 1] == rest[j]);
            }
        }
    }
}

/// A run straight over the table that ends with no failure has visited every
/// symbol of the table: each `STT_OBJECT` symbol whose name has a non-empty
/// payload in `m` has a file range, the payload fits in the image there, and
/// it reads back there unless a later such symbol's bytes overlap it.
pub proof fn law_direct_run_writes_named_objects(
    image: ElfImage,
    buf: Seq<u8>,
    syms: Seq<SymbolEntry>,
    m: Map<Seq<char>, Seq<u8>>,
    k: int,
)
    requires
        direct_run(image, buf, syms, m).1 is None,
        0 <= k < syms.len(),
        syms[k].st_symtype == STT_OBJECT,
        syms[k].name is Some,
        m.dom().contains(syms[k].name->0@),
        m[syms[k].name->0@].len() > 0,
        forall|j: int, i: int| k < j < syms.len() && #[trigger] written_for(image, syms[j], m, i) ==> !written_for(image, syms[k], m, i),
    ensures
        ({
            let payload = m[syms[k].name->0@];
            &&& file_range(image, syms[k].st_shndx, syms[k].st_value) is Ok
            &&& range_start(image, syms[k]) + payload.len() <= buf.len()
            &&& direct_run(image, buf, syms, m).0.subrange(
                range_start(image, syms[k]),
                range_start(image, syms[k]) + payload.len(),
            ) == payload
        }),
    decreases k,
{
    let sym = syms[0];
    let rest = syms.drop_first();
    let selected = sym.name matches Some(n) && sym.st_symtype == STT_OBJECT && m.dom().contains(n@);
    if k > 0 {
        assert forall|j: int, i: int| k - 1 < j < rest.len() && #[trigger] written_for(image, rest[j], m, i) implies !written_for(
            image,
            rest[k - 1],
            m,
            i,
        ) by {
            assert(rest[j] == syms[j + 1]);
            assert(written_for(image, syms[j + 1], m, i));
            assert(rest[k - 1] == syms[k]);
        }
    }
    if k == 0 {
        let n = sym.name->0;
        let payload = m[n@];
        let check = direct_check(image, buf.len() as int, sym, payload.len() as int);
        let next = direct_result(buf, check, payload);
        let s = range_start(image, sym);
        law_direct_run_frame(image, next, rest, m);
        let fin = direct_run(image, buf, syms, m).0;
        assert forall|t: int| 0 <= t < payload.len() implies #[trigger] fin.subrange(s, s + payload.len())[t] == payload[t] by {
            let i = s + t;
            assert(written_for(image, syms[0], m, i));
            if fin[i] != next[i] {
                let j = choose|j: int| 0 <= j < rest.len() && written_for(image, #[trigger] rest[j], m, i);
                assert(rest[j] == syms[j + 1]);
                assert(written_for(image, syms[j + 1], m, i));
            }
        }
        assert(fin.subrange(s, s + payload.len()) =~= payload);
    } else if selected {
        let n = sym.name->0;
        let check = direct_check(image, buf.len() as int, sym, m[n@].len() as int);
        let next = direct_result(buf, check, m[n@]);
        assert(rest[k - 1] == syms[k]);
        law_direct_run_writes_named_objects(image, next, rest, m, k - 1);
    } else {
        assert(rest[k - 1] == syms[k]);
        law_direct_run_writes_named_objects(image, buf, rest, m, k - 1);
    }
}

/// `sym` is an `STT_OBJECT` symbol named `name`, defined or not.
pub open spec fn object_called(sym: SymbolEntry, name: Seq<char>) -> bool {
    &&& sym.st_symtype == STT_OBJECT
    &&& sym.name matches Some(n) && n@ == name
}

/// A run straight over the table that fails names the symbol it failed on:
/// an `STT_OBJECT` symbol of the table whose name has a payload in `m`.
pub proof fn law_direct_run_failure_names_an_object(
    image: ElfImage,
    buf: Seq<u8>,
    syms: Seq<SymbolEntry>,
    m: Map<Seq<char>, Seq<u8>>,
)
    ensures
        direct_run(image, buf, syms, m).1 matches Some((n, _)) ==> m.dom().contains(n) && exists|k: int|
            0 <= k < syms.len() && object_called(#[trigger] syms[k], n),
    decreases syms.len(),
{
    if syms.len() > 0 {
        let rest = syms.drop_first();
        let sym = syms[0];
        let selected = sym.name matches Some(n) && sym.st_symtype == STT_OBJECT && m.dom().contains(n@);
        if selected {
            let n = sym.name->0;
            let check = direct_check(image, buf.len() as int, sym, m[n@].len() as int);
            if check is Err {
                assert(object_called(syms[0], n@));
            } else {
                law_direct_run_failure_names_an_object(image, direct_result(buf, check, m[n@]), rest, m);
            }
        } else {
            law_direct_run_failure_names_an_object(image, buf, rest, m);
        }
        if let Some((n, _)) = direct_run(image, buf, syms, m).1 {
            if !object_called(syms[0], n) {
                let k = choose|k: int| 0 <= k < rest.len() && object_called(#[trigger] rest[k], n);
                assert(syms[k + 1] == rest[k]);
            }
        }
    }
}

} // verus!
