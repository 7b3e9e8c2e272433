use tg_rcore_tutorial::elf::{
    elf_load_plan, entry_point, table_readable, page_ceil, page_floor, page_number, plan_segments, satp_for, segment_flags,
    ElfHeaderInfo, ProgramHeaderInfo, USER_SP, USER_STACK_VPN_END, USER_STACK_VPN_START,
};

fn header(is_64: bool, is_executable: bool, is_riscv: bool) -> ElfHeaderInfo {
    ElfHeaderInfo {
        is_64,
        elf_type: if is_executable { 2 } else { 3 },
        is_riscv,
        entry: 0x1_0000,
        ph_offset: 64,
        ph_entry_size: 56,
        ph_count: 0,
    }
}

/// One program header: type, flags, file offset, virtual address, file size,
/// memory size.
type Ph = (u32, u32, u64, u64, u64, u64);

/// A 64-bit little-endian ELF image of `len` bytes with the program headers `phs`
/// right after the header.
fn elf64(elf_type: u16, machine: u16, entry: u64, ph_offset: u64, phs: &[Ph], len: usize) -> Vec<u8> {
    let mut b: Vec<u8> = Vec::with_capacity(len.max(64 + 56 * phs.len()));
    b.extend_from_slice(&[0x7f, b'E', b'L', b'F', 2, 1, 1, 0, 0, 0, 0, 0, 0, 0, 0, 0]);
    b.extend_from_slice(&elf_type.to_le_bytes());
    b.extend_from_slice(&machine.to_le_bytes());
    b.extend_from_slice(&1u32.to_le_bytes());
    b.extend_from_slice(&entry.to_le_bytes());
    b.extend_from_slice(&ph_offset.to_le_bytes());
    b.extend_from_slice(&0u64.to_le_bytes());
    b.extend_from_slice(&0u32.to_le_bytes());
    b.extend_from_slice(&64u16.to_le_bytes());
    b.extend_from_slice(&56u16.to_le_bytes());
    b.extend_from_slice(&(phs.len() as u16).to_le_bytes());
    b.extend_from_slice(&[0; 6]);
    for &(ty, flags, off, vaddr, filesz, memsz) in phs {
        b.extend_from_slice(&ty.to_le_bytes());
        b.extend_from_slice(&flags.to_le_bytes());
        b.extend_from_slice(&off.to_le_bytes());
        b.extend_from_slice(&vaddr.to_le_bytes());
        b.extend_from_slice(&vaddr.to_le_bytes());
        b.extend_from_slice(&filesz.to_le_bytes());
        b.extend_from_slice(&memsz.to_le_bytes());
        b.extend_from_slice(&0x1000u64.to_le_bytes());
    }
    b.resize(len.max(b.len()), 0);
    b
}

const RISCV: u16 = 0xf3;
const X86_64: u16 = 0x3e;

#[test]
fn a_riscv_executable_is_read_and_planned() {
    let phs = [(1, 5, 0, 0x1_0000, 0x200, 0x200), (4, 4, 0, 0, 0, 0), (1, 6, 0x1100, 0x1_1100, 0x10, 0x2000)];
    let bytes = elf64(2, RISCV, 0x1_0040, 64, &phs, 0x1200);
    let (entry, plan) = elf_load_plan(&bytes).expect("a RISC-V executable loads");
    assert_eq!(entry, 0x1_0040);
    assert_eq!(plan.len(), 2);
    assert_eq!((plan[0].vpn_start, plan[0].vpn_end), (0x10, 0x11));
    assert_eq!((plan[0].file_start, plan[0].file_len, plan[0].page_offset), (0, 0x200, 0));
    assert_eq!(&plan[0].flags, b"UX_RV");
    assert_eq!((plan[1].vpn_start, plan[1].vpn_end), (0x11, 0x14));
    assert_eq!((plan[1].file_start, plan[1].file_len, plan[1].page_offset), (0x1100, 0x10, 0x100));
    assert_eq!(&plan[1].flags, b"U_WRV");
}

#[test]
fn other_files_are_refused() {
    let phs = [(1, 5, 0, 0x1_0000, 0x80, 0x80)];
    assert!(elf_load_plan(&elf64(2, X86_64, 0x1_0000, 64, &phs, 0x200)).is_none());
    assert!(elf_load_plan(&elf64(3, RISCV, 0x1_0000, 64, &phs, 0x200)).is_none());
    let mut bad_magic = elf64(2, RISCV, 0x1_0000, 64, &phs, 0x200);
    bad_magic[1] = b'X';
    assert!(elf_load_plan(&bad_magic).is_none());
    let mut class32 = elf64(2, RISCV, 0x1_0000, 64, &phs, 0x200);
    class32[4] = 1;
    assert!(elf_load_plan(&class32).is_none());
    assert!(elf_load_plan(&[0x7f, b'E', b'L', b'F']).is_none());
}

#[test]
fn misplaced_segments_and_tables_are_refused() {
    // File bytes past the end of the file.
    assert!(elf_load_plan(&elf64(2, RISCV, 0x1_0000, 64, &[(1, 5, 0x100, 0x1_0100, 0x200, 0x200)], 0x200)).is_none());
    // File offset and address disagree within the page.
    assert!(elf_load_plan(&elf64(2, RISCV, 0x1_0000, 64, &[(1, 5, 0x10, 0x1_0000, 0x20, 0x20)], 0x200)).is_none());
    // The program header table runs past the end of the file.
    let mut short = elf64(2, RISCV, 0x1_0000, 64, &[(1, 5, 0, 0x1_0000, 0x20, 0x20)], 0);
    short.truncate(100);
    assert!(elf_load_plan(&short).is_none());
    // A segment that is not loadable may lie anywhere.
    let plan = elf_load_plan(&elf64(2, RISCV, 0x1_0000, 64, &[(4, 4, 0x9999, 7, 0x100, 0x100)], 0x200)).unwrap();
    assert!(plan.1.is_empty());
}

#[test]
fn a_file_without_a_program_header_table_loads_nothing() {
    let (entry, plan) = elf_load_plan(&elf64(2, RISCV, 0x8000, 0, &[], 0x80)).unwrap();
    assert_eq!(entry, 0x8000);
    assert!(plan.is_empty());
}

#[test]
fn only_64_bit_riscv_executables_are_accepted() {
    assert_eq!(entry_point(&header(true, true, true)), Some(0x1_0000));
    assert_eq!(entry_point(&header(false, true, true)), None);
    assert_eq!(entry_point(&header(true, false, true)), None);
    assert_eq!(entry_point(&header(true, true, false)), None);
}

#[test]
fn segment_rights_follow_the_flags() {
    assert_eq!(&segment_flags(0), b"U___V");
    assert_eq!(&segment_flags(5), b"UX_RV");
    assert_eq!(&segment_flags(6), b"U_WRV");
    assert_eq!(&segment_flags(7), b"UXWRV");
    assert_eq!(&segment_flags(0x0ff0_0002), b"U_W_V");
}

#[test]
fn pages_of_sv39_addresses() {
    assert_eq!(page_floor(0x1_0123), 0x10);
    assert_eq!(page_ceil(0x1_0123), 0x11);
    assert_eq!(page_ceil(0x1_0000), 0x10);
    // Bits above the 39 of an Sv39 address are cut.
    assert_eq!(page_floor(0xffff_ffc0_0000_1000), 0x400_0001);
    assert_eq!(page_floor(0xff80_0000_0000_1000), 1);
    assert_eq!(page_number(0x8020_3000), 0x80203);
}

#[test]
fn loadable_segments_are_placed_in_order() {
    let text = ProgramHeaderInfo { is_load: true, offset: 0x1000, file_size: 0x234, virtual_addr: 0x1_0000, mem_size: 0x234, flags: 5 };
    let note = ProgramHeaderInfo { is_load: false, offset: 0, file_size: 0, virtual_addr: 0, mem_size: 0, flags: 4 };
    let data = ProgramHeaderInfo { is_load: true, offset: 0x2100, file_size: 0x10, virtual_addr: 0x1_1100, mem_size: 0x2000, flags: 6 };
    let plan = plan_segments(&[text, note, data], 0x3000);
    assert_eq!(plan.len(), 2);
    assert_eq!((plan[0].vpn_start, plan[0].vpn_end), (0x10, 0x11));
    assert_eq!((plan[0].file_start, plan[0].file_len, plan[0].page_offset), (0x1000, 0x234, 0));
    assert_eq!(&plan[0].flags, b"UX_RV");
    assert_eq!((plan[1].vpn_start, plan[1].vpn_end), (0x11, 0x14));
    assert_eq!((plan[1].file_start, plan[1].file_len, plan[1].page_offset), (0x2100, 0x10, 0x100));
    assert_eq!(&plan[1].flags, b"U_WRV");
    assert!(plan_segments(&[note], 0).is_empty());
}

#[test]
fn user_stack_and_satp() {
    assert_eq!(USER_STACK_VPN_END - USER_STACK_VPN_START, 2);
    assert_eq!(USER_STACK_VPN_END << 12, USER_SP);
    assert_eq!(satp_for(0x80205), 0x8000_0000_0008_0205);
}

#[test]
fn a_single_entry_may_have_any_entry_size() {
    let mut bytes = elf64(2, RISCV, 0x1_0000, 64, &[(1, 5, 0, 0x1_0000, 0x80, 0x80)], 0x200);
    bytes[54] = 60;
    let (_, plan) = elf_load_plan(&bytes).expect("one entry of 60 bytes is read");
    assert_eq!(plan.len(), 1);
    // A second entry would start at an offset that 8 does not divide.
    let mut two = elf64(2, RISCV, 0x1_0000, 64, &[(1, 5, 0, 0x1_0000, 0x80, 0x80), (4, 4, 0, 0, 0, 0)], 0x200);
    two[54] = 60;
    assert!(elf_load_plan(&two).is_none());
}

#[test]
fn an_empty_table_is_not_read() {
    let (entry, plan) = elf_load_plan(&elf64(2, RISCV, 0x8000, 0x9999_9999, &[], 0x80)).unwrap();
    assert_eq!(entry, 0x8000);
    assert!(plan.is_empty());
}

#[test]
fn the_image_may_start_anywhere_in_memory() {
    let phs = [(1, 5, 0, 0x1_0000, 0x200, 0x200)];
    let image = elf64(2, RISCV, 0x1_0040, 64, &phs, 0x200);
    for shift in 1..8 {
        let mut buf = vec![0u8; shift];
        buf.extend_from_slice(&image);
        let (entry, plan) = elf_load_plan(&buf[shift..]).expect("a shifted image loads");
        assert_eq!(entry, 0x1_0040);
        assert_eq!((plan[0].file_start, plan[0].file_len), (0, 0x200));
    }
}

fn table(ph_offset: u64, ph_entry_size: u16, ph_count: u16) -> ElfHeaderInfo {
    ElfHeaderInfo { ph_offset, ph_entry_size, ph_count, ..header(true, true, true) }
}

#[test]
fn table_readable_checks_every_entry() {
    // No table, or no entries: nothing to read.
    assert!(table_readable(&table(0, 56, 3), 0));
    assert!(table_readable(&table(64, 0, 3), 0));
    assert!(table_readable(&table(64, 56, 0), 0));
    // Three entries of 56 bytes from offset 64 end at 232.
    assert!(table_readable(&table(64, 56, 3), 232));
    assert!(!table_readable(&table(64, 56, 3), 231));
    // Entries too short for a 64-bit program header.
    assert!(!table_readable(&table(64, 32, 1), 0x1000));
    // One entry of 60 bytes is read; the second would start at 124.
    assert!(table_readable(&table(64, 60, 1), 0x1000));
    assert!(!table_readable(&table(64, 60, 2), 0x1000));
    // A table starting past the file.
    assert!(!table_readable(&table(0x2000, 56, 1), 0x1000));
    assert!(!table_readable(&table(u64::MAX - 7, 56, 1), u64::MAX));
}

#[test]
fn files_refused_whatever_the_byte_order() {
    let phs = [(1, 5, 0, 0x1_0000, 0x80, 0x80)];
    // A machine field that is not RISC-V in either byte order.
    assert!(elf_load_plan(&elf64(2, 0x0102, 0x1_0000, 64, &phs, 0x200)).is_none());
    // A type field that is not an executable in either byte order.
    assert!(elf_load_plan(&elf64(0x0202, RISCV, 0x1_0000, 64, &phs, 0x200)).is_none());
    // Too short for the 64-bit header.
    let image = elf64(2, RISCV, 0x1_0000, 64, &phs, 0x200);
    assert!(elf_load_plan(&image[..63]).is_none());
}
