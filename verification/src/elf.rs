//! Zero-copy ELF64 image validation: checks that a byte buffer holds a
//! 64-bit little-endian System-V executable or shared object, and exposes
//! typed views of its program and section header tables that read straight
//! from the borrowed buffer.

use vstd::prelude::*;

use crate::bytes::le_u16;
use crate::bytes::le_u32;
use crate::bytes::le_u64;
use crate::bytes::read_u16;
use crate::bytes::read_u32;
use crate::bytes::read_u64;

verus! {

/// Size in bytes of the ELF64 file header.
pub const EHDR_SIZE: usize = 64;

/// Size in bytes of one ELF64 program header record.
pub const PHDR_SIZE: usize = 56;

/// Size in bytes of one ELF64 section header record.
pub const SHDR_SIZE: usize = 64;

/// `e_type` of an executable file.
pub const ET_EXEC: u16 = 2;

/// `e_type` of a shared-object file.
pub const ET_DYN: u16 = 3;

/// `p_type` of a loadable segment.
pub const PT_LOAD: u32 = 1;

/// The ELF64 file header, decoded into an owned record. The identification
/// bytes stay in the borrowed buffer; their checked values are recorded by
/// `elf_valid`.
#[derive(Clone, Copy, Debug, PartialEq, Eq, Structural)]
pub struct Elf64Ehdr {
    pub e_type: u16,
    pub e_machine: u16,
    pub e_version: u32,
    pub e_entry: u64,
    pub e_phoff: u64,
    pub e_shoff: u64,
    pub e_flags: u32,
    pub e_ehsize: u16,
    pub e_phentsize: u16,
    pub e_phnum: u16,
    pub e_shentsize: u16,
    pub e_shnum: u16,
    pub e_shstrndx: u16,
}

/// One ELF64 program header record.
#[derive(Clone, Copy, Debug, PartialEq, Eq, Structural)]
pub struct Elf64Phdr {
    pub p_type: u32,
    pub p_flags: u32,
    pub p_offset: u64,
    pub p_vaddr: u64,
    pub p_paddr: u64,
    pub p_filesz: u64,
    pub p_memsz: u64,
    pub p_align: u64,
}

/// One ELF64 section header record.
#[derive(Clone, Copy, Debug, PartialEq, Eq, Structural)]
pub struct Elf64Shdr {
    pub sh_name: u32,
    pub sh_type: u32,
    pub sh_flags: u64,
    pub sh_addr: u64,
    pub sh_offset: u64,
    pub sh_size: u64,
    pub sh_link: u32,
    pub sh_info: u32,
    pub sh_addralign: u64,
    pub sh_entsize: u64,
}

/// The file header the bytes at the start of `s` spell, field by field.
pub open spec fn ehdr_at(s: Seq<u8>) -> Elf64Ehdr {
    Elf64Ehdr {
        e_type: le_u16(s, 16) as u16,
        e_machine: le_u16(s, 18) as u16,
        e_version: le_u32(s, 20) as u32,
        e_entry: le_u64(s, 24) as u64,
        e_phoff: le_u64(s, 32) as u64,
        e_shoff: le_u64(s, 40) as u64,
        e_flags: le_u32(s, 48) as u32,
        e_ehsize: le_u16(s, 52) as u16,
        e_phentsize: le_u16(s, 54) as u16,
        e_phnum: le_u16(s, 56) as u16,
        e_shentsize: le_u16(s, 58) as u16,
        e_shnum: le_u16(s, 60) as u16,
        e_shstrndx: le_u16(s, 62) as u16,
    }
}

/// The program header record the bytes at `off` spell.
pub open spec fn phdr_at(s: Seq<u8>, off: int) -> Elf64Phdr {
    Elf64Phdr {
        p_type: le_u32(s, off) as u32,
        p_flags: le_u32(s, off + 4) as u32,
        p_offset: le_u64(s, off + 8) as u64,
        p_vaddr: le_u64(s, off + 16) as u64,
        p_paddr: le_u64(s, off + 24) as u64,
        p_filesz: le_u64(s, off + 32) as u64,
        p_memsz: le_u64(s, off + 40) as u64,
        p_align: le_u64(s, off + 48) as u64,
    }
}

/// The section header record the bytes at `off` spell.
pub open spec fn shdr_at(s: Seq<u8>, off: int) -> Elf64Shdr {
    Elf64Shdr {
        sh_name: le_u32(s, off) as u32,
        sh_type: le_u32(s, off + 4) as u32,
        sh_flags: le_u64(s, off + 8) as u64,
        sh_addr: le_u64(s, off + 16) as u64,
        sh_offset: le_u64(s, off + 24) as u64,
        sh_size: le_u64(s, off + 32) as u64,
        sh_link: le_u32(s, off + 40) as u32,
        sh_info: le_u32(s, off + 44) as u32,
        sh_addralign: le_u64(s, off + 48) as u64,
        sh_entsize: le_u64(s, off + 56) as u64,
    }
}

/// Program header `i` of a valid image.
pub open spec fn phdr_spec(s: Seq<u8>, i: int) -> Elf64Phdr {
    phdr_at(s, ehdr_at(s).e_phoff + i * 56)
}

/// Section header `i` of a valid image.
pub open spec fn shdr_spec(s: Seq<u8>, i: int) -> Elf64Shdr {
    shdr_at(s, ehdr_at(s).e_shoff + i * 64)
}

pub open spec fn magic_ok(s: Seq<u8>) -> bool {
    s[0] == 0x7f && s[1] == 0x45 && s[2] == 0x4c && s[3] == 0x46
}

/// Identification byte 4: 64-bit class.
pub open spec fn class_ok(s: Seq<u8>) -> bool {
    s[4] == 2
}

/// Identification byte 5: little-endian data encoding.
pub open spec fn encoding_ok(s: Seq<u8>) -> bool {
    s[5] == 1
}

/// Identification byte 7: System V OS/ABI.
pub open spec fn abi_ok(s: Seq<u8>) -> bool {
    s[7] == 0
}

pub open spec fn type_ok(h: Elf64Ehdr) -> bool {
    h.e_type == ET_EXEC || h.e_type == ET_DYN
}

/// Program- and section-header offsets and counts all non-zero.
pub open spec fn tables_present(h: Elf64Ehdr) -> bool {
    h.e_phoff > 0 && h.e_phnum > 0 && h.e_shoff > 0 && h.e_shnum > 0
}

/// On-disk record sizes match the fixed ELF64 layout.
pub open spec fn entsizes_ok(h: Elf64Ehdr) -> bool {
    h.e_phentsize == 56 && h.e_shentsize == 64
}

/// Both header tables lie inside the buffer.
pub open spec fn tables_in_bounds(h: Elf64Ehdr, len: int) -> bool {
    h.e_phoff + h.e_phnum * 56 <= len && h.e_shoff + h.e_shnum * 64 <= len
}

/// Everything `parse` checks, in one predicate: exactly the buffers on
/// which it succeeds.
pub open spec fn elf_valid(s: Seq<u8>) -> bool {
    &&& s.len() > 64
    &&& magic_ok(s)
    &&& class_ok(s)
    &&& encoding_ok(s)
    &&& abi_ok(s)
    &&& type_ok(ehdr_at(s))
    &&& tables_present(ehdr_at(s))
    &&& entsizes_ok(ehdr_at(s))
    &&& tables_in_bounds(ehdr_at(s), s.len() as int)
}

/// Why a buffer is not a loadable ELF64 image; one variant per check.
#[derive(Clone, Copy, Debug, PartialEq, Eq, Structural)]
pub enum ElfParseError {
    /// The buffer does not even exceed the fixed file-header size.
    TooShort,
    /// The four signature bytes are wrong.
    BadMagic,
    /// Not a 64-bit image.
    UnsupportedClass,
    /// Not little-endian.
    UnsupportedEncoding,
    /// Not the System V OS/ABI.
    UnsupportedAbi,
    /// Neither an executable nor a shared object.
    UnsupportedType,
    /// Program-header offset or count is zero.
    NoProgramHeaders,
    /// Section-header offset or count is zero.
    NoSectionHeaders,
    /// On-disk program-header records have an unexpected size.
    BadProgramHeaderSize,
    /// On-disk section-header records have an unexpected size.
    BadSectionHeaderSize,
    /// The program-header table runs past the end of the buffer.
    ProgramHeadersOutOfBounds,
    /// The section-header table runs past the end of the buffer.
    SectionHeadersOutOfBounds,
}

/// The error `parse` reports for an invalid buffer: the first check, in
/// order, that fails.
pub open spec fn parse_error(s: Seq<u8>) -> ElfParseError {
    if s.len() <= 64 {
        ElfParseError::TooShort
    } else if !magic_ok(s) {
        ElfParseError::BadMagic
    } else if !class_ok(s) {
        ElfParseError::UnsupportedClass
    } else if !encoding_ok(s) {
        ElfParseError::UnsupportedEncoding
    } else if !abi_ok(s) {
        ElfParseError::UnsupportedAbi
    } else if !type_ok(ehdr_at(s)) {
        ElfParseError::UnsupportedType
    } else if !(ehdr_at(s).e_phoff > 0 && ehdr_at(s).e_phnum > 0) {
        ElfParseError::NoProgramHeaders
    } else if !(ehdr_at(s).e_shoff > 0 && ehdr_at(s).e_shnum > 0) {
        ElfParseError::NoSectionHeaders
    } else if ehdr_at(s).e_phentsize != 56 {
        ElfParseError::BadProgramHeaderSize
    } else if ehdr_at(s).e_shentsize != 64 {
        ElfParseError::BadSectionHeaderSize
    } else if !(ehdr_at(s).e_phoff + ehdr_at(s).e_phnum * 56 <= s.len()) {
        ElfParseError::ProgramHeadersOutOfBounds
    } else {
        ElfParseError::SectionHeadersOutOfBounds
    }
}

/// A validated, non-owning view over an ELF64 image: the decoded file
/// header plus the borrowed buffer that the program- and section-header
/// views read from. Never copies or owns image bytes; it lives no longer
/// than the buffer.
#[derive(Debug)]
pub struct Elf64<'a> {
    buf: &'a [u8],
    header: Elf64Ehdr,
}

impl<'a> Elf64<'a> {
    /// The underlying image bytes.
    pub closed spec fn bytes(&self) -> Seq<u8> {
        self.buf@
    }

    /// The decoded file header.
    pub closed spec fn header_spec(&self) -> Elf64Ehdr {
        self.header
    }

    /// A validated view: the buffer passed every check and the stored
    /// header is the one its bytes spell.
    pub open spec fn wf(&self) -> bool {
        &&& elf_valid(self.bytes())
        &&& self.header_spec() == ehdr_at(self.bytes())
    }

    /// The decoded file header.
    pub fn header(&self) -> (h: Elf64Ehdr)
        ensures
            h == self.header_spec(),
    {
        self.header
    }

    /// Number of program headers.
    pub fn phnum(&self) -> (n: u16)
        ensures
            n == self.header_spec().e_phnum,
    {
        self.header.e_phnum
    }

    /// Number of section headers.
    pub fn shnum(&self) -> (n: u16)
        ensures
            n == self.header_spec().e_shnum,
    {
        self.header.e_shnum
    }

    /// Entry point address.
    pub fn entry(&self) -> (e: u64)
        ensures
            e == self.header_spec().e_entry,
    {
        self.header.e_entry
    }

    /// Length of the underlying buffer.
    pub fn len(&self) -> (n: usize)
        ensures
            n == self.bytes().len(),
    {
        self.buf.len()
    }

    /// Byte `i` of the underlying buffer.
    pub fn byte_at(&self, i: usize) -> (b: u8)
        requires
            i < self.bytes().len(),
        ensures
            b == self.bytes()[i as int],
    {
        self.buf[i]
    }

    /// Program header `i`, read zero-copy from the buffer.
    pub fn pheader(&self, i: usize) -> (ph: Elf64Phdr)
        requires
            self.wf(),
            i < self.header_spec().e_phnum,
        ensures
            ph == phdr_spec(self.bytes(), i as int),
    {
        proof {
            vstd::arithmetic::mul::lemma_mul_inequality(
                i as int + 1,
                self.header_spec().e_phnum as int,
                56,
            );
        }
        let n: usize = self.buf.len();
        let off: usize = (self.header.e_phoff as usize) + i * PHDR_SIZE;
        Elf64Phdr {
            p_type: read_u32(self.buf, off),
            p_flags: read_u32(self.buf, off + 4),
            p_offset: read_u64(self.buf, off + 8),
            p_vaddr: read_u64(self.buf, off + 16),
            p_paddr: read_u64(self.buf, off + 24),
            p_filesz: read_u64(self.buf, off + 32),
            p_memsz: read_u64(self.buf, off + 40),
            p_align: read_u64(self.buf, off + 48),
        }
    }

    /// Section header `i`, read zero-copy from the buffer.
    pub fn sheader(&self, i: usize) -> (sh: Elf64Shdr)
        requires
            self.wf(),
            i < self.header_spec().e_shnum,
        ensures
            sh == shdr_spec(self.bytes(), i as int),
    {
        proof {
            vstd::arithmetic::mul::lemma_mul_inequality(
                i as int + 1,
                self.header_spec().e_shnum as int,
                64,
            );
        }
        let n: usize = self.buf.len();
        let off: usize = (self.header.e_shoff as usize) + i * SHDR_SIZE;
        Elf64Shdr {
            sh_name: read_u32(self.buf, off),
            sh_type: read_u32(self.buf, off + 4),
            sh_flags: read_u64(self.buf, off + 8),
            sh_addr: read_u64(self.buf, off + 16),
            sh_offset: read_u64(self.buf, off + 24),
            sh_size: read_u64(self.buf, off + 32),
            sh_link: read_u32(self.buf, off + 40),
            sh_info: read_u32(self.buf, off + 44),
            sh_addralign: read_u64(self.buf, off + 48),
            sh_entsize: read_u64(self.buf, off + 56),
        }
    }
}

/// Validate `buf` as a 64-bit little-endian System-V ELF image, failing
/// fast on the first broken rule, and hand back a zero-copy view. Succeeds
/// exactly on valid buffers; on failure names the first check that failed.
pub fn parse<'a>(buf: &'a [u8]) -> (r: Result<Elf64<'a>, ElfParseError>)
    ensures
        r is Ok <==> elf_valid(buf@),
        r matches Ok(e) ==> e.wf() && e.bytes() == buf@,
        r matches Err(err) ==> err == parse_error(buf@),
{
    let len: usize = buf.len();
    if len <= EHDR_SIZE {
        return Err(ElfParseError::TooShort);
    }
    if !(buf[0] == 0x7f && buf[1] == 0x45 && buf[2] == 0x4c && buf[3] == 0x46) {
        return Err(ElfParseError::BadMagic);
    }
    if buf[4] != 2 {
        return Err(ElfParseError::UnsupportedClass);
    }
    if buf[5] != 1 {
        return Err(ElfParseError::UnsupportedEncoding);
    }
    if buf[7] != 0 {
        return Err(ElfParseError::UnsupportedAbi);
    }
    let header = Elf64Ehdr {
        e_type: read_u16(buf, 16),
        e_machine: read_u16(buf, 18),
        e_version: read_u32(buf, 20),
        e_entry: read_u64(buf, 24),
        e_phoff: read_u64(buf, 32),
        e_shoff: read_u64(buf, 40),
        e_flags: read_u32(buf, 48),
        e_ehsize: read_u16(buf, 52),
        e_phentsize: read_u16(buf, 54),
        e_phnum: read_u16(buf, 56),
        e_shentsize: read_u16(buf, 58),
        e_shnum: read_u16(buf, 60),
        e_shstrndx: read_u16(buf, 62),
    };
    proof {
        assert(header == ehdr_at(buf@));
    }
    if !(header.e_type == ET_EXEC || header.e_type == ET_DYN) {
        return Err(ElfParseError::UnsupportedType);
    }
    if !(header.e_phoff > 0 && header.e_phnum > 0) {
        return Err(ElfParseError::NoProgramHeaders);
    }
    if !(header.e_shoff > 0 && header.e_shnum > 0) {
        return Err(ElfParseError::NoSectionHeaders);
    }
    if header.e_phentsize != 56 {
        return Err(ElfParseError::BadProgramHeaderSize);
    }
    if header.e_shentsize != 64 {
        return Err(ElfParseError::BadSectionHeaderSize);
    }
    let ph_bytes: u64 = (header.e_phnum as u64) * 56;
    if !(header.e_phoff <= len as u64 && ph_bytes <= len as u64 - header.e_phoff) {
        return Err(ElfParseError::ProgramHeadersOutOfBounds);
    }
    let sh_bytes: u64 = (header.e_shnum as u64) * 64;
    if !(header.e_shoff <= len as u64 && sh_bytes <= len as u64 - header.e_shoff) {
        return Err(ElfParseError::SectionHeadersOutOfBounds);
    }
    Ok(Elf64 { buf, header })
}

} // verus!
