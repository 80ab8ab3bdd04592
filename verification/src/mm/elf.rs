//! Reading an ELF executable: the file header and the program headers, as
//! the `xmas_elf` crate parses them.

use vstd::prelude::*;

use xmas_elf::ElfFile;
use xmas_elf::program::Type;

verus! {

/// The ELF magic number.
pub open spec fn elf_magic() -> Seq<u8> {
    seq![0x7fu8, 0x45u8, 0x4cu8, 0x46u8]
}

/// What the kernel reads of an ELF file header.
#[derive(Clone, Copy)]
pub struct ElfInfo {
    pub magic: [u8; 4],
    /// Whether the file is of the 64-bit class (otherwise 32-bit).
    pub is_64: bool,
    pub entry: u64,
    pub ph_offset: u64,
    pub ph_entry_size: u16,
    pub ph_count: u16,
}

/// What the kernel reads of a program header.
#[derive(Clone, Copy)]
pub struct Segment {
    /// Whether the segment is of the loadable type.
    pub is_load: bool,
    pub offset: u64,
    pub virtual_addr: u64,
    pub file_size: u64,
    pub mem_size: u64,
    pub flags: u32,
}

/// The header that `xmas_elf` reads from the bytes `data`, or `None` when it
/// rejects them.
pub uninterp spec fn elf_header(data: Seq<u8>) -> Option<ElfInfo>;

/// Program header `index` as `xmas_elf` reads it from the file `data`, or
/// `None` when it reports an error.
pub uninterp spec fn elf_segment(data: Seq<u8>, index: u16) -> Option<Segment>;

/// The bytes are long enough for the header part that their class byte
/// announces (the parser slices them without checking), or the parser
/// rejects them before it gets there.
pub open spec fn elf_open_safe(data: Seq<u8>) -> bool {
    ||| data.len() < 16
    ||| data.subrange(0, 4) != elf_magic()
    ||| (data[4] != 1 && data[4] != 2)
    ||| (data[4] == 1 && data.len() >= 52)
    ||| (data[4] == 2 && data.len() >= 64)
}

/// Size of a program header of the class.
pub open spec fn ph_size(is_64: bool) -> int {
    if is_64 {
        56
    } else {
        32
    }
}

/// Program header `index` of a file of `len` bytes with header `info` lies
/// inside the file and is large enough to read, or the parser reports that
/// there is no such header before it slices.
pub open spec fn segment_safe(info: ElfInfo, len: int, index: u16) -> bool {
    ||| !(index < info.ph_count && info.ph_offset > 0 && info.ph_entry_size > 0)
    ||| {
        &&& info.ph_offset + (index + 1) * info.ph_entry_size <= len
        &&& info.ph_entry_size >= ph_size(info.is_64)
        &&& (info.ph_offset + index * info.ph_entry_size) % ph_align(info.is_64) == 0
    }
}

/// Alignment that the parser needs for a program header of the class,
/// which it reads in place.
pub open spec fn ph_align(is_64: bool) -> int {
    if is_64 {
        8
    } else {
        4
    }
}

/// A zeroed buffer of 8-byte words with room for `len` bytes: the parser
/// reads the header parts in place, so the bytes are handed to it from the
/// start of such a buffer, which is aligned for every header part.
pub(crate) fn word_buffer(len: usize) -> (r: Vec<u64>)
    ensures
        r@.len() * 8 >= len,
{
    let n = len / 8 + 1;
    let mut v: Vec<u64> = Vec::new();
    let mut i: usize = 0;
    while i < n
        invariant
            i <= n,
            n == len / 8 + 1,
            v@.len() == i,
        decreases n - i,
    {
        v.push(0);
        i = i + 1;
    }
    v
}

/// `xmas_elf::ElfFile::new`: parses the header of `data`, handed to it from
/// the start of the word buffer `words` (the bytes are first copied there,
/// where every header part is aligned as the parser asks).  The result is
/// what `elf_header` names.  As `header::parse_header` shows, there is a
/// header exactly when the file has the 16 bytes of the first header part,
/// starting with the ELF magic number, and its class byte is 1 (32-bit) or
/// 2 (64-bit); the header then has that magic number and that class.
#[verifier::external_body]
pub(crate) fn elf_open(data: &[u8], words: Vec<u64>) -> (r: Option<ElfInfo>)
    requires
        elf_open_safe(data@),
        words@.len() * 8 >= data@.len(),
    ensures
        r == elf_header(data@),
        r.is_some() == (data@.len() >= 16 && data@.subrange(0, 4) == elf_magic() && (data@[4] == 1 || data@[4]
            == 2)),
        r matches Some(info) ==> info.magic@ == elf_magic() && info.is_64 == (data@[4] == 2),
{
    let mut words = words;
    let bytes = &mut bytemuck::cast_slice_mut::<u64, u8>(&mut words)[..data.len()];
    bytes.copy_from_slice(data);
    match ElfFile::new(bytes) {
        Ok(file) => {
            let (pt1, pt2) = (file.header.pt1, file.header.pt2);
            let is_64 = matches!(pt1.class(), xmas_elf::header::Class::SixtyFour);
            let (entry, ph_offset) = (pt2.entry_point(), pt2.ph_offset());
            let (ph_entry_size, ph_count) = (pt2.ph_entry_size(), pt2.ph_count());
            Some(ElfInfo { magic: pt1.magic, is_64, entry, ph_offset, ph_entry_size, ph_count })
        },
        Err(_) => None,
    }
}

/// `xmas_elf::ElfFile::program_header`: reads program header `index` of the
/// file `data`, whose header parses, handed to the parser from the start of
/// the word buffer `words` as for `elf_open`.  The result is what
/// `elf_segment` names; it is `None` when the index is past the count or the
/// header gives no program header table.
#[verifier::external_body]
pub(crate) fn elf_program_header(data: &[u8], index: u16, words: Vec<u64>) -> (r: Option<Segment>)
    requires
        elf_open_safe(data@),
        elf_header(data@).is_some(),
        segment_safe(elf_header(data@).unwrap(), data@.len() as int, index),
        words@.len() * 8 >= data@.len(),
    ensures
        r == elf_segment(data@, index),
        !(index < elf_header(data@).unwrap().ph_count && elf_header(data@).unwrap().ph_offset > 0
            && elf_header(data@).unwrap().ph_entry_size > 0) ==> r.is_none(),
{
    let mut words = words;
    let bytes = &mut bytemuck::cast_slice_mut::<u64, u8>(&mut words)[..data.len()];
    bytes.copy_from_slice(data);
    let file = match ElfFile::new(bytes) { Ok(file) => file, Err(_) => return None };
    match file.program_header(index) {
        Ok(ph) => Some(Segment {
            is_load: matches!(ph.get_type(), Ok(Type::Load)), offset: ph.offset(),
            virtual_addr: ph.virtual_addr(), file_size: ph.file_size(),
            mem_size: ph.mem_size(), flags: ph.flags().0,
        }),
        Err(_) => None,
    }
}

} // verus!
