use patch_elf_symtab::direct::{patch_matching_symbols, patch_symbol, SymbolPatchError};
use patch_elf_symtab::entries::Entries;
use patch_elf_symtab::hex::HexBytes;
use patch_elf_symtab::image::{symbol_data_file_range, ElfImage, RangeError, Segment, SymbolEntry};
use patch_elf_symtab::patcher::{ElfSymtabPatcher, PatchFailure};
use patch_elf_symtab::reader::{read_image, ElfError};
use patch_elf_symtab::run::{check_failures, patch_all, RunError};
use patch_elf_symtab::site::{apply_patch, PatchFailureReason, PatchSite};
use patch_elf_symtab::text::decimal;

fn put16(b: &mut [u8], off: usize, v: u16) {
    b[off..off + 2].copy_from_slice(&v.to_le_bytes());
}
fn put32(b: &mut [u8], off: usize, v: u32) {
    b[off..off + 4].copy_from_slice(&v.to_le_bytes());
}
fn put64(b: &mut [u8], off: usize, v: u64) {
    b[off..off + 8].copy_from_slice(&v.to_le_bytes());
}

const STRTAB: &[u8] = b"\0greeting\0counter\0func\0bss_obj\0undef_obj\0blob\0";
const SHSTRTAB: &[u8] = b"\0.symtab\0.strtab\0.shstrtab\0";

fn name_offset(name: &str) -> u32 {
    let needle = format!("\0{}\0", name);
    let pos = STRTAB
        .windows(needle.len())
        .position(|w| w == needle.as_bytes())
        .unwrap();
    (pos + 1) as u32
}

fn put_sym(b: &mut [u8], index: usize, name: u32, info: u8, shndx: u16, value: u64, size: u64) {
    let off = 0x140 + index * 24;
    put32(b, off, name);
    b[off + 4] = info;
    b[off + 5] = 0;
    put16(b, off + 6, shndx);
    put64(b, off + 8, value);
    put64(b, off + 16, size);
}

fn put_shdr(b: &mut [u8], index: usize, name: u32, ty: u32, offset: u64, size: u64, link: u32, entsize: u64) {
    let off = 0x240 + index * 64;
    put32(b, off, name);
    put32(b, off + 4, ty);
    put64(b, off + 24, offset);
    put64(b, off + 32, size);
    put32(b, off + 40, link);
    put64(b, off + 48, 1);
    put64(b, off + 56, entsize);
}

/// A small ELF64 little-endian image: one loadable segment maps file bytes
/// [0, 0x100) at 0x400000 (0x200 bytes in memory), and `.symtab` holds
/// greeting (16 bytes at 0x80, and a second symbol of that name at 0xb0),
/// counter (4 bytes at 0x90), a function, an object past the file bytes,
/// an undefined object and blob (size 0 at 0xf8).
fn build_elf(e_type: u16) -> Vec<u8> {
    let mut b = vec![0u8; 0x340];
    b[0..4].copy_from_slice(&[0x7f, b'E', b'L', b'F']);
    b[4] = 2;
    b[5] = 1;
    b[6] = 1;
    put16(&mut b, 16, e_type);
    put16(&mut b, 18, 0x3e);
    put32(&mut b, 20, 1);
    put64(&mut b, 24, 0x400000);
    put64(&mut b, 32, 64);
    put64(&mut b, 40, 0x240);
    put16(&mut b, 52, 64);
    put16(&mut b, 54, 56);
    put16(&mut b, 56, 1);
    put16(&mut b, 58, 64);
    put16(&mut b, 60, 4);
    put16(&mut b, 62, 3);
    put32(&mut b, 64, 1);
    put32(&mut b, 68, 6);
    put64(&mut b, 72, 0);
    put64(&mut b, 80, 0x400000);
    put64(&mut b, 88, 0x400000);
    put64(&mut b, 96, 0x100);
    put64(&mut b, 104, 0x200);
    put64(&mut b, 112, 0x1000);
    b[0x80..0x90].copy_from_slice(b"hello world!\0\0\0\0");
    b[0x90..0x94].copy_from_slice(&[1, 2, 3, 4]);
    b[0xb0..0xc0].copy_from_slice(b"second greeting\0");
    b[0x100..0x100 + STRTAB.len()].copy_from_slice(STRTAB);
    put_sym(&mut b, 1, name_offset("greeting"), 0x11, 1, 0x400080, 16);
    put_sym(&mut b, 2, name_offset("counter"), 0x11, 1, 0x400090, 4);
    put_sym(&mut b, 3, name_offset("func"), 0x12, 1, 0x4000a0, 8);
    put_sym(&mut b, 4, name_offset("bss_obj"), 0x11, 1, 0x400180, 8);
    put_sym(&mut b, 5, name_offset("undef_obj"), 0x11, 0, 0, 8);
    put_sym(&mut b, 6, name_offset("blob"), 0x11, 1, 0x4000f8, 0);
    put_sym(&mut b, 7, name_offset("greeting"), 0x01, 1, 0x4000b0, 16);
    b[0x200..0x200 + SHSTRTAB.len()].copy_from_slice(SHSTRTAB);
    put_shdr(&mut b, 1, 1, 2, 0x140, 8 * 24, 2, 24);
    put_shdr(&mut b, 2, 9, 3, 0x100, STRTAB.len() as u64, 0, 0);
    put_shdr(&mut b, 3, 17, 3, 0x200, SHSTRTAB.len() as u64, 0, 0);
    b
}

fn failure(name: &str, reason: PatchFailureReason) -> PatchFailure {
    PatchFailure { symbol_name: name.to_string(), reason }
}

#[test]
fn new_copies_the_input() {
    let input = build_elf(2);
    let patcher = ElfSymtabPatcher::new(&input).unwrap();
    assert!(patcher.failures().is_empty());
    let (output, failures) = patcher.finish();
    assert_eq!(output, input);
    assert!(failures.is_empty());
}

#[test]
fn patch_writes_the_symbol_bytes() {
    let input = build_elf(2);
    let mut patcher = ElfSymtabPatcher::new(&input).unwrap();
    patcher.patch_symbol("counter", &[9, 8, 7, 6]);
    let (output, failures) = patcher.finish();
    assert!(failures.is_empty());
    assert_eq!(&output[0x90..0x94], &[9, 8, 7, 6]);
    assert_eq!(&output[..0x90], &input[..0x90]);
    assert_eq!(&output[0x94..], &input[0x94..]);
}

#[test]
fn patch_writes_every_site_of_a_name() {
    let input = build_elf(2);
    let mut patcher = ElfSymtabPatcher::new(&input).unwrap();
    patcher.patch_symbol("greeting", b"patched ok!\0\0\0\0\0");
    let (output, failures) = patcher.finish();
    assert!(failures.is_empty());
    assert_eq!(&output[0x80..0x90], b"patched ok!\0\0\0\0\0");
    assert_eq!(&output[0xb0..0xc0], b"patched ok!\0\0\0\0\0");
}

#[test]
fn shorter_payload_keeps_the_rest() {
    let input = build_elf(2);
    let mut patcher = ElfSymtabPatcher::new(&input).unwrap();
    patcher.patch_symbol("greeting", b"HI");
    let (output, _) = patcher.finish();
    assert_eq!(&output[0x80..0x90], b"HIllo world!\0\0\0\0");
}

#[test]
fn failures_are_recorded_and_chaining_goes_on() {
    let input = build_elf(2);
    let mut patcher = ElfSymtabPatcher::new(&input).unwrap();
    patcher
        .patch_symbol("missing", &[1])
        .patch_symbol("counter", &[1, 2, 3, 4, 5])
        .patch_symbol("func", &[1])
        .patch_symbol("bss_obj", &[1])
        .patch_symbol("undef_obj", &[1])
        .patch_symbol("counter", &[0xaa]);
    assert_eq!(
        patcher.failures(),
        &[
            failure("missing", PatchFailureReason::NotFound),
            failure("counter", PatchFailureReason::TooLarge { patch_len: 5, symbol_size: 4 }),
            failure("func", PatchFailureReason::NotFound),
            failure("bss_obj", PatchFailureReason::NotFileBacked),
            failure("undef_obj", PatchFailureReason::NotFound),
        ]
    );
    let (output, _) = patcher.finish();
    assert_eq!(&output[0x90..0x94], &[0xaa, 2, 3, 4]);
}

#[test]
fn unsized_symbol_is_bounded_by_its_segment() {
    let input = build_elf(2);
    let mut patcher = ElfSymtabPatcher::new(&input).unwrap();
    patcher.patch_symbol("blob", &[7; 8]).patch_symbol("blob", &[5; 9]);
    assert_eq!(
        patcher.failures(),
        &[failure(
            "blob",
            PatchFailureReason::ExtendsPastContainer { start: 0xf8, end: 0x101, container_end: 0x100 }
        )]
    );
    let (output, _) = patcher.finish();
    assert_eq!(&output[0xf8..0x100], &[7; 8]);
}

#[test]
fn empty_payload_is_a_no_op() {
    let input = build_elf(2);
    let mut patcher = ElfSymtabPatcher::new(&input).unwrap();
    patcher.patch_symbol("greeting", &[]);
    let (output, failures) = patcher.finish();
    assert!(failures.is_empty());
    assert_eq!(output, input);
}

#[test]
fn only_executables_have_sites() {
    for e_type in [1u16, 3, 4] {
        let input = build_elf(e_type);
        let mut patcher = ElfSymtabPatcher::new(&input).unwrap();
        patcher.patch_symbol("greeting", &[1]);
        assert_eq!(patcher.failures(), &[failure("greeting", PatchFailureReason::NotFileBacked)]);
    }
}

#[test]
fn new_rejects_bad_images() {
    assert_eq!(ElfSymtabPatcher::new(&[0u8; 10]).err(), Some(ElfError::Parse));
    assert_eq!(ElfSymtabPatcher::new(&[]).err(), Some(ElfError::Parse));
    assert_eq!(ElfSymtabPatcher::new(b"hello").err(), Some(ElfError::Parse));
    let mut truncated = build_elf(2);
    truncated.truncate(40);
    assert_eq!(ElfSymtabPatcher::new(&truncated).err(), Some(ElfError::Parse));
    let mut no_sections = build_elf(2);
    put64(&mut no_sections, 40, 0);
    assert_eq!(ElfSymtabPatcher::new(&no_sections).err(), Some(ElfError::NoSymtabStrs));
    let mut bad_symtab = build_elf(2);
    put64(&mut bad_symtab, 0x240 + 64 + 56, 7);
    assert_eq!(ElfSymtabPatcher::new(&bad_symtab).err(), Some(ElfError::CommonData));
}

fn site(start: usize, container_end: usize, st_size: u64) -> PatchSite {
    PatchSite { start, container_end, st_size }
}

#[test]
fn apply_patch_checks_in_order() {
    let mut buf = vec![0u8; 8];
    assert_eq!(
        apply_patch(&mut buf, &site(2, 8, 2), &[1, 2, 3]),
        Err(PatchFailureReason::TooLarge { patch_len: 3, symbol_size: 2 })
    );
    assert_eq!(
        apply_patch(&mut buf, &site(usize::MAX, usize::MAX, 0), &[1, 2]),
        Err(PatchFailureReason::EndOverflow { start: usize::MAX, patch_len: 2 })
    );
    assert_eq!(
        apply_patch(&mut buf, &site(6, 7, 0), &[1, 2]),
        Err(PatchFailureReason::ExtendsPastContainer { start: 6, end: 8, container_end: 7 })
    );
    assert_eq!(
        apply_patch(&mut buf, &site(7, 20, 0), &[1, 2]),
        Err(PatchFailureReason::ExtendsPastBuffer { start: 7, end: 9, buffer_len: 8 })
    );
    assert_eq!(buf, vec![0u8; 8]);
    assert_eq!(apply_patch(&mut buf, &site(100, 0, 1), &[]), Ok(()));
    assert_eq!(apply_patch(&mut buf, &site(5, 8, 3), &[1, 2, 3]), Ok(()));
    assert_eq!(buf, vec![0, 0, 0, 0, 0, 1, 2, 3]);
}

fn seg(p_type: u32, p_offset: u64, p_vaddr: u64, p_filesz: u64, p_memsz: u64) -> Segment {
    Segment { p_type, p_offset, p_vaddr, p_filesz, p_memsz }
}

fn sym(shndx: u16, value: u64) -> SymbolEntry {
    SymbolEntry { name: Some("s".to_string()), st_symtype: 1, st_shndx: shndx, st_value: value, st_size: 4 }
}

fn image(e_type: u16, segments: Option<Vec<Segment>>) -> ElfImage {
    ElfImage { e_type, segments, symbols: vec![] }
}

#[test]
fn file_range_uses_first_loadable_segment() {
    let img = image(
        2,
        Some(vec![
            seg(6, 0, 0x1000, 0x100, 0x100),
            seg(1, 0x10, 0x2000, 0x20, 0x40),
            seg(1, 0x500, 0x2000, 0x100, 0x100),
        ]),
    );
    assert_eq!(symbol_data_file_range(&img, &sym(1, 0x2008)), Ok((0x18, 0x30)));
    assert_eq!(symbol_data_file_range(&img, &sym(1, 0x2030)), Ok((0x530, 0x600)));
    assert_eq!(
        symbol_data_file_range(&img, &sym(1, 0x1008)),
        Err(RangeError::NotMapped { virtual_address: 0x1008 })
    );
}

#[test]
fn file_range_errors() {
    let img = image(2, Some(vec![seg(1, 0, 0x1000, 0x100, 0x100)]));
    assert_eq!(symbol_data_file_range(&img, &sym(0, 0x1000)), Err(RangeError::UndefinedSymbol));
    assert_eq!(
        symbol_data_file_range(&image(1, None), &sym(1, 0x1000)),
        Err(RangeError::UnsupportedType { e_type: 1 })
    );
    assert_eq!(
        symbol_data_file_range(&image(3, None), &sym(1, 0x1000)),
        Err(RangeError::UnsupportedType { e_type: 3 })
    );
    assert_eq!(symbol_data_file_range(&image(2, None), &sym(1, 0x1000)), Err(RangeError::NoProgramHeaders));
    let over = image(2, Some(vec![seg(1, u64::MAX, 0x1000, 1, 0x100)]));
    assert_eq!(symbol_data_file_range(&over, &sym(1, 0x1001)), Err(RangeError::FileOffsetOverflow));
    assert_eq!(symbol_data_file_range(&over, &sym(1, 0x1000)), Err(RangeError::SegmentRangeOverflow));
    let sat = image(2, Some(vec![seg(1, 0, u64::MAX - 1, 4, 10)]));
    assert_eq!(symbol_data_file_range(&sat, &sym(1, u64::MAX - 1)), Ok((0, 4)));
    assert_eq!(
        symbol_data_file_range(&sat, &sym(1, u64::MAX)),
        Err(RangeError::NotMapped { virtual_address: u64::MAX })
    );
}

#[test]
fn from_image_keeps_defined_named_mapped_objects() {
    let img = ElfImage {
        e_type: 2,
        segments: Some(vec![seg(1, 0, 0x1000, 0x10, 0x20)]),
        symbols: vec![
            SymbolEntry { name: Some("a".to_string()), st_symtype: 1, st_shndx: 1, st_value: 0x1004, st_size: 2 },
            SymbolEntry { name: None, st_symtype: 1, st_shndx: 1, st_value: 0x1004, st_size: 2 },
            SymbolEntry { name: Some("f".to_string()), st_symtype: 2, st_shndx: 1, st_value: 0x1004, st_size: 2 },
            SymbolEntry { name: Some("b".to_string()), st_symtype: 1, st_shndx: 1, st_value: 0x1018, st_size: 2 },
        ],
    };
    let input = vec![0u8; 0x10];
    let mut patcher = ElfSymtabPatcher::from_image(&input, &img);
    patcher.patch_symbol("a", &[1, 2]).patch_symbol("f", &[1]).patch_symbol("b", &[1]);
    assert_eq!(
        patcher.failures(),
        &[failure("f", PatchFailureReason::NotFound), failure("b", PatchFailureReason::NotFileBacked)]
    );
    let (output, _) = patcher.finish();
    assert_eq!(output[4..6], [1, 2]);
}

#[test]
fn patch_all_then_check() {
    let input = build_elf(2);
    let mut patcher = ElfSymtabPatcher::new(&input).unwrap();
    let mut entries = Entries::new();
    entries.insert("counter".to_string(), HexBytes(vec![4, 3, 2, 1]));
    entries.insert("zzz".to_string(), HexBytes(vec![1]));
    entries.insert("aaa".to_string(), HexBytes(vec![1]));
    patch_all(&mut patcher, &entries);
    assert_eq!(
        check_failures(patcher.failures()),
        Err(RunError::UnknownKeys(vec!["aaa".to_string(), "zzz".to_string()]))
    );
    let (output, _) = patcher.finish();
    assert_eq!(&output[0x90..0x94], &[4, 3, 2, 1]);
}

#[test]
fn check_failures_fatal_first() {
    let failures = vec![
        failure("b", PatchFailureReason::NotFound),
        failure("x", PatchFailureReason::TooLarge { patch_len: 9, symbol_size: 1 }),
        failure("y", PatchFailureReason::EndOverflow { start: 1, patch_len: 2 }),
    ];
    assert_eq!(
        check_failures(&failures),
        Err(RunError::Patch(failure("x", PatchFailureReason::TooLarge { patch_len: 9, symbol_size: 1 })))
    );
    assert_eq!(check_failures(&[]), Ok(()));
    let unknown = vec![
        failure("zeta", PatchFailureReason::NotFound),
        failure("alpha", PatchFailureReason::NotFound),
        failure("mu", PatchFailureReason::NotFound),
        failure("alpha", PatchFailureReason::NotFound),
    ];
    assert_eq!(
        check_failures(&unknown),
        Err(RunError::UnknownKeys(vec![
            "alpha".to_string(),
            "alpha".to_string(),
            "mu".to_string(),
            "zeta".to_string()
        ]))
    );
}

#[test]
fn direct_patch_checks_size_before_range() {
    let img = image(2, Some(vec![seg(1, 0, 0x1000, 0x10, 0x10)]));
    let mut buf = vec![0u8; 0x10];
    let mut s = sym(0, 0x1000);
    assert_eq!(
        patch_symbol(&img, &mut buf, &s, &[1, 2, 3, 4, 5]),
        Err(SymbolPatchError::Patch(PatchFailureReason::TooLarge { patch_len: 5, symbol_size: 4 }))
    );
    assert_eq!(
        patch_symbol(&img, &mut buf, &s, &[1]),
        Err(SymbolPatchError::Range(RangeError::UndefinedSymbol))
    );
    assert_eq!(patch_symbol(&img, &mut buf, &s, &[]), Ok(()));
    s.st_shndx = 1;
    s.st_value = 0x100e;
    s.st_size = 0;
    assert_eq!(
        patch_symbol(&img, &mut buf, &s, &[1, 2, 3]),
        Err(SymbolPatchError::Patch(PatchFailureReason::ExtendsPastContainer { start: 14, end: 17, container_end: 16 }))
    );
    assert_eq!(patch_symbol(&img, &mut buf, &s, &[1, 2]), Ok(()));
    assert_eq!(buf[14..16], [1, 2]);
}

#[test]
fn direct_run_stops_at_first_failure() {
    let input = build_elf(2);
    let img = ElfImage {
        e_type: 2,
        segments: Some(vec![seg(1, 0, 0x400000, 0x100, 0x200)]),
        symbols: vec![
            SymbolEntry { name: Some("counter".to_string()), st_symtype: 1, st_shndx: 1, st_value: 0x400090, st_size: 4 },
            SymbolEntry { name: Some("big".to_string()), st_symtype: 1, st_shndx: 1, st_value: 0x400080, st_size: 1 },
            SymbolEntry { name: Some("greeting".to_string()), st_symtype: 1, st_shndx: 1, st_value: 0x400080, st_size: 16 },
        ],
    };
    let mut entries = Entries::new();
    entries.insert("counter".to_string(), HexBytes(vec![5, 5, 5, 5]));
    entries.insert("big".to_string(), HexBytes(vec![1, 2]));
    entries.insert("greeting".to_string(), HexBytes(vec![7]));
    let mut buf = input.clone();
    let r = patch_matching_symbols(&img, &mut buf, &entries);
    assert_eq!(
        r,
        Err((
            "big".to_string(),
            SymbolPatchError::Patch(PatchFailureReason::TooLarge { patch_len: 2, symbol_size: 1 })
        ))
    );
    assert_eq!(buf[0x90..0x94], [5, 5, 5, 5]);
    assert_eq!(buf[0x80], input[0x80]);
}

#[test]
fn not_found_only_when_no_defined_object_has_the_name() {
    let input = build_elf(2);
    let mut patcher = ElfSymtabPatcher::new(&input).unwrap();
    patcher
        .patch_symbol("bss_obj", &[1])
        .patch_symbol("func", &[1])
        .patch_symbol("undef_obj", &[1])
        .patch_symbol("nothing", &[1]);
    assert_eq!(
        patcher.failures(),
        &[
            failure("bss_obj", PatchFailureReason::NotFileBacked),
            failure("func", PatchFailureReason::NotFound),
            failure("undef_obj", PatchFailureReason::NotFound),
            failure("nothing", PatchFailureReason::NotFound),
        ]
    );
    let (output, _) = patcher.finish();
    assert_eq!(output, input);
}

#[test]
fn no_program_headers_means_no_file_bytes() {
    let mut input = build_elf(2);
    put16(&mut input, 56, 0);
    put64(&mut input, 32, 0);
    let mut patcher = ElfSymtabPatcher::new(&input).unwrap();
    patcher.patch_symbol("counter", &[1]);
    assert_eq!(patcher.failures(), &[failure("counter", PatchFailureReason::NotFileBacked)]);
}

#[test]
fn unbacked_symbol_is_a_fatal_failure() {
    let failures = vec![
        failure("a", PatchFailureReason::NotFound),
        failure("bss_obj", PatchFailureReason::NotFileBacked),
    ];
    assert_eq!(
        check_failures(&failures),
        Err(RunError::Patch(failure("bss_obj", PatchFailureReason::NotFileBacked)))
    );
}

#[test]
fn read_image_gives_the_header_type_and_tables() {
    let input = build_elf(2);
    let img = read_image(&input).unwrap();
    assert_eq!(img.e_type, 2);
    assert_eq!(img.segments, Some(vec![seg(1, 0, 0x400000, 0x100, 0x200)]));
    assert_eq!(img.symbols.len(), 8);
    assert_eq!(img.symbols[1].name.as_deref(), Some("greeting"));
    assert_eq!(img.symbols[1].st_value, 0x400080);
    assert_eq!(img.symbols[1].st_size, 16);
    assert_eq!(img.symbols[3].st_symtype, 2);
    assert_eq!(img.symbols[5].st_shndx, 0);
    let mut swapped_type = build_elf(2);
    swapped_type[16] = 0;
    swapped_type[17] = 3;
    assert_eq!(read_image(&swapped_type).unwrap().e_type, 0x0300);
    assert_eq!(read_image(&build_elf(3)).unwrap().e_type, 3);
    assert_eq!(read_image(b"hello").err(), Some(ElfError::Parse));
}

#[test]
fn failure_messages() {
    assert_eq!(PatchFailureReason::NotFound.message(), "no object symbol with that name");
    assert_eq!(
        PatchFailureReason::NotFileBacked.message(),
        "object symbol has no file-backed bytes to overwrite"
    );
    assert_eq!(
        PatchFailureReason::TooLarge { patch_len: 17, symbol_size: 16 }.message(),
        "patch is 17 bytes but symbol size is 16"
    );
    assert_eq!(
        PatchFailureReason::ExtendsPastContainer { start: 248, end: 257, container_end: 256 }.message(),
        "patch [248, 257) extends past symbol container [248, 256)"
    );
    assert_eq!(
        PatchFailureReason::ExtendsPastBuffer { start: 0, end: 10, buffer_len: 9 }.message(),
        "patch [0, 10) extends past buffer length 9"
    );
    assert_eq!(
        PatchFailureReason::EndOverflow { start: usize::MAX, patch_len: 2 }.message(),
        format!("patch end overflow at start {} len 2", usize::MAX)
    );
    assert_eq!(
        failure("greeting", PatchFailureReason::TooLarge { patch_len: 5, symbol_size: 4 }).message(),
        "failed to patch symbol \"greeting\": patch is 5 bytes but symbol size is 4"
    );
    assert_eq!(
        failure("a\"b", PatchFailureReason::NotFound).message(),
        "failed to patch symbol \"a\\\"b\": no object symbol with that name"
    );
}

#[test]
fn decimal_text_of_integers() {
    assert_eq!(decimal(0), "0");
    assert_eq!(decimal(7), "7");
    assert_eq!(decimal(10), "10");
    assert_eq!(decimal(4096), "4096");
    assert_eq!(decimal(u64::MAX), "18446744073709551615");
}
