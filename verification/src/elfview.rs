//! The sections of an ELF binary that the scans read: their load address and
//! raw bytes.
use object::{Object, ObjectSection};
use vstd::prelude::*;

verus! {

/// A loaded section: its virtual address and its bytes.
pub struct Section {
    pub vaddr: u64,
    pub data: Vec<u8>,
}

/// The `len` bytes of a section (based at `base`, holding `data`) that start
/// at virtual address `vaddr`, if they all lie inside it.
pub open spec fn section_slice(base: u64, data: Seq<u8>, vaddr: u64, len: usize) -> Option<Seq<u8>> {
    if vaddr < base {
        None
    } else {
        let off = (vaddr - base) as u64 as usize;
        if off + len > usize::MAX || off + len > data.len() {
            None
        } else {
            Some(data.subrange(off as int, off + len))
        }
    }
}

/// A `R_X86_64_RELATIVE` dynamic relocation: the loader patches the 8 bytes
/// at virtual address `offset`.
#[derive(Debug, Clone, Copy, PartialEq, Eq, Structural)]
pub struct RelaRelative {
    pub offset: u64,
}

impl Section {
    /// The bytes at `[vaddr, vaddr + len)`, if the range lies inside the section.
    pub fn slice_at(&self, vaddr: u64, len: usize) -> (r: Option<&[u8]>)
        ensures
            r matches Some(s) ==> section_slice(self.vaddr, self.data@, vaddr, len) == Some(s@),
            r is None ==> section_slice(self.vaddr, self.data@, vaddr, len) is None,
    {
        let off = match vaddr.checked_sub(self.vaddr) {
            Some(d) => d as usize,
            None => return None,
        };
        let end = match off.checked_add(len) {
            Some(e) => e,
            None => return None,
        };
        if end > self.data.len() {
            return None;
        }
        Some(vstd::slice::slice_subrange(self.data.as_slice(), off, end))
    }

    /// The section holds the byte at virtual address `vaddr`.
    pub fn contains_vaddr(&self, vaddr: u64) -> (r: bool)
        ensures
            r == (self.vaddr <= vaddr && vaddr - self.vaddr < self.data@.len()),
    {
        vaddr >= self.vaddr && vaddr - self.vaddr < self.data.len() as u64
    }
}


/// What `object` reads from the file `buf` for the section called `name`:
/// `None` when `buf` does not parse as an object file, `Some(None)` when it has
/// no such section or its contents do not decompress, and otherwise the
/// section's address and uncompressed contents. Whether `buf` parses does not
/// depend on `name`.
pub uninterp spec fn elf_section(buf: Seq<u8>, name: Seq<char>) -> Option<Option<(u64, Seq<u8>)>>;

/// `object::File::parse`, then `Object::section_by_name`, and for the section
/// found `ObjectSection::address` and `ObjectSection::uncompressed_data`. A
/// parse failure comes back as its message; a section whose contents do not
/// decompress counts as absent.
#[verifier::external_body]
fn read_section(buf: &[u8], name: &str) -> (r: Result<Option<(u64, Vec<u8>)>, String>)
    ensures
        r is Err <==> elf_section(buf@, name@) is None,
        r is Err <==> elf_section(buf@, ".text"@) is None,
        r matches Ok(Some((a, d))) ==> elf_section(buf@, name@) == Some(Some((a, d@))),
        r matches Ok(None) ==> elf_section(buf@, name@) == Some(None::<(u64, Seq<u8>)>),
{
    let file = object::File::parse(buf).map_err(|e| e.to_string())?;
    Ok(file.section_by_name(name).and_then(|sec| sec.uncompressed_data().ok().map(|d| (sec.address(), d.into_owned()))))
}

/// Type of a `R_X86_64_RELATIVE` relocation.
pub const R_X86_64_RELATIVE: u64 = 8;

/// Size of one `Elf64_Rela` entry.
pub const RELA_ENTRY_SIZE: usize = 24;

/// The little-endian 64-bit word at `data[at..at + 8]`.
pub open spec fn le_u64(data: Seq<u8>, at: int) -> u64 {
    (data[at] as u64) | ((data[at + 1] as u64) << 8u64) | ((data[at + 2] as u64) << 16u64) | ((data[at + 3] as u64)
        << 24u64) | ((data[at + 4] as u64) << 32u64) | ((data[at + 5] as u64) << 40u64) | ((data[at + 6] as u64)
        << 48u64) | ((data[at + 7] as u64) << 56u64)
}

/// The `R_X86_64_RELATIVE` entries among the first `m` `Elf64_Rela` records of
/// `data` (offset, info, addend; the type is the low half of info).
pub open spec fn rela_relative_entries(data: Seq<u8>, m: int) -> Seq<RelaRelative>
    decreases m,
{
    if m <= 0 {
        Seq::empty()
    } else {
        let prev = rela_relative_entries(data, m - 1);
        let at = (m - 1) * RELA_ENTRY_SIZE;
        if le_u64(data, at + 8) & 0xffff_ffffu64 == R_X86_64_RELATIVE {
            prev.push(RelaRelative { offset: le_u64(data, at) })
        } else {
            prev
        }
    }
}

fn read_le_u64(data: &[u8], at: usize) -> (r: u64)
    requires
        at + 8 <= data@.len(),
    ensures
        r == le_u64(data@, at as int),
{
    (data[at] as u64) | ((data[at + 1] as u64) << 8u64) | ((data[at + 2] as u64) << 16u64) | ((data[at + 3] as u64)
        << 24u64) | ((data[at + 4] as u64) << 32u64) | ((data[at + 5] as u64) << 40u64) | ((data[at + 6] as u64)
        << 48u64) | ((data[at + 7] as u64) << 56u64)
}

/// The `R_X86_64_RELATIVE` relocations of a `.rela.dyn` section's contents; a
/// trailing partial record is ignored.
pub fn parse_rela_relative(data: &[u8]) -> (r: Vec<RelaRelative>)
    ensures
        r@ == rela_relative_entries(data@, data@.len() as int / RELA_ENTRY_SIZE as int),
{
    let count = data.len() / RELA_ENTRY_SIZE;
    let mut out: Vec<RelaRelative> = Vec::new();
    let mut k: usize = 0;
    while k < count
        invariant
            count == data@.len() as int / RELA_ENTRY_SIZE as int,
            k <= count,
            out@ == rela_relative_entries(data@, k as int),
        decreases count - k,
    {
        assert(k * 24 + 24 <= data@.len()) by (nonlinear_arith)
            requires
                k < count,
                count == data@.len() / 24,
        ;
        assert(k * 24 + 24 <= data.len());
        let at = k * RELA_ENTRY_SIZE;
        let info = read_le_u64(data, at + 8);
        if info & 0xffff_ffffu64 == R_X86_64_RELATIVE {
            out.push(RelaRelative { offset: read_le_u64(data, at) });
        }
        k += 1;
    }
    out
}

/// The sections of an ELF binary that the scans read, and its relative
/// relocations.
pub struct ParsedElf {
    pub text: Option<Section>,
    pub rodata: Option<Section>,
    pub data_rel_ro: Option<Section>,
    pub rela_relative: Vec<RelaRelative>,
}

/// `sec` is the section `object` reads from `buf` under `name`, if any.
pub open spec fn loaded_as(sec: Option<Section>, buf: Seq<u8>, name: Seq<char>) -> bool {
    match elf_section(buf, name) {
        Some(Some((a, d))) => sec matches Some(s) && s.vaddr == a && s.data@ == d,
        _ => sec is None,
    }
}

fn load_section(buf: &[u8], name: &str) -> (r: Result<Option<Section>, String>)
    ensures
        r is Err <==> elf_section(buf@, name@) is None,
        r is Err <==> elf_section(buf@, ".text"@) is None,
        r matches Ok(sec) ==> loaded_as(sec, buf@, name@),
{
    match read_section(buf, name) {
        Err(e) => Err(e),
        Ok(None) => Ok(None),
        Ok(Some((vaddr, data))) => Ok(Some(Section { vaddr, data })),
    }
}

impl ParsedElf {
    /// The section called `name` (`.text`, `.rodata` or `.data.rel.ro`).
    pub open spec fn named(&self, name: Seq<char>) -> Option<Section> {
        if name == ".text"@ {
            self.text
        } else if name == ".rodata"@ {
            self.rodata
        } else if name == ".data.rel.ro"@ {
            self.data_rel_ro
        } else {
            None
        }
    }

    /// Read `.text`, `.rodata`, `.data.rel.ro` and the relative relocations
    /// of `.rela.dyn` from an ELF file's bytes. Fails, with `object`'s message,
    /// when the bytes do not parse.
    pub fn parse(buf: &[u8]) -> (r: Result<ParsedElf, String>)
        ensures
            r is Err <==> elf_section(buf@, ".text"@) is None,
            r matches Ok(elf) ==> {
                &&& loaded_as(elf.named(".text"@), buf@, ".text"@)
                &&& loaded_as(elf.named(".rodata"@), buf@, ".rodata"@)
                &&& loaded_as(elf.named(".data.rel.ro"@), buf@, ".data.rel.ro"@)
                &&& match elf_section(buf@, ".rela.dyn"@) {
                    Some(Some((_, d))) => elf.rela_relative@ == rela_relative_entries(d, d.len() as int / RELA_ENTRY_SIZE as int),
                    _ => elf.rela_relative@.len() == 0,
                }
            },
    {
        let text = match load_section(buf, ".text") {
            Ok(s) => s,
            Err(e) => return Err(e),
        };
        let rodata = match load_section(buf, ".rodata") {
            Ok(s) => s,
            Err(e) => return Err(e),
        };
        let data_rel_ro = match load_section(buf, ".data.rel.ro") {
            Ok(s) => s,
            Err(e) => return Err(e),
        };
        let rela_relative = match read_section(buf, ".rela.dyn") {
            Ok(Some((_, d))) => parse_rela_relative(d.as_slice()),
            _ => Vec::new(),
        };
        Ok(ParsedElf { text, rodata, data_rel_ro, rela_relative })
    }

    /// The section called `name`, if it was loaded.
    pub fn section(&self, name: &str) -> (r: Option<&Section>)
        ensures
            r matches Some(s) ==> self.named(name@) == Some(*s),
            r is None ==> self.named(name@) is None,
    {
        let wanted = String::from_str(name);
        let sec = if wanted == String::from_str(".text") {
            &self.text
        } else if wanted == String::from_str(".rodata") {
            &self.rodata
        } else if wanted == String::from_str(".data.rel.ro") {
            &self.data_rel_ro
        } else {
            return None;
        };
        match sec {
            Some(s) => Some(s),
            None => None,
        }
    }
}

} // verus!
