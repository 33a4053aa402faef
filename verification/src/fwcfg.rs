//! What the firmware does with the files of the configuration device once
//! their bytes are in memory: telling files by name, reading the commands of
//! the table loader, patching pointers and checksums into loaded tables.

use vstd::prelude::*;
use crate::bytes::{
    be_value, copy_range, le_value, lemma_cut, lemma_le_value_same, lemma_pow256_bound, pow256,
    read_le, write_le,
};

verus! {

pub const CFG_KERNEL_SIZE: u16 = 0x08;

pub const CFG_KERNEL_DATA: u16 = 0x11;

pub const CFG_INITRD_SIZE: u16 = 0x0b;

pub const CFG_INITRD_DATA: u16 = 0x12;

pub const CFG_FILE_DIR: u16 = 0x19;

pub const CFG_DMACTL_DONE: u32 = 0;

pub const CFG_DMACTL_ERROR: u32 = 1;

pub const CFG_DMACTL_READ: u32 = 2;

pub const CFG_DMACTL_SKIP: u32 = 4;

/// The length of a file name in the directory of the device.
pub const FILENAME_LEN: usize = 56;

/// The size of one record of the table loader.
pub const LOADER_ENTRY_LEN: usize = 128;

/// The sum of the bytes from `lo` up to `hi`.
pub open spec fn byte_sum(bytes: Seq<u8>, lo: int, hi: int) -> int
    decreases hi - lo,
{
    if hi <= lo {
        0
    } else {
        byte_sum(bytes, lo, hi - 1) + bytes[hi - 1]
    }
}

/// The byte that makes a sum of bytes come to zero modulo 256.
pub open spec fn checksum_of(sum: int) -> int {
    (256 - sum % 256) % 256
}

/// Whether `filename`, without the zero bytes at its end, is `name`.
pub open spec fn names(filename: Seq<u8>, name: Seq<u8>) -> bool {
    &&& name.len() <= filename.len()
    &&& filename.subrange(0, name.len() as int) == name
    &&& forall|i: int| name.len() <= i < filename.len() ==> filename[i] == 0
    &&& name.len() > 0 ==> name[name.len() - 1] != 0
}

/// Whether a file name, without the zero bytes at its end, is `name`.
pub fn name_matches(filename: &[u8], name: &[u8]) -> (r: bool)
    ensures
        r == names(filename@, name@),
{
    let n = name.len();
    if n > filename.len() {
        return false;
    }
    if n > 0 && name[n - 1] == 0 {
        return false;
    }
    let mut i: usize = 0;
    while i < n
        invariant
            n == name@.len(),
            n <= filename@.len(),
            i <= n,
            forall|j: int| 0 <= j < i ==> filename@[j] == name@[j],
        decreases n - i,
    {
        if filename[i] != name[i] {
            proof {
                assert(filename@.subrange(0, n as int)[i as int] == filename@[i as int]);
            }
            return false;
        }
        i += 1;
    }
    proof {
        assert(filename@.subrange(0, n as int) =~= name@);
    }
    while i < filename.len()
        invariant
            n <= i <= filename@.len(),
            n == name@.len(),
            filename@.subrange(0, n as int) == name@,
            n > 0 ==> name@[n - 1] != 0,
            forall|j: int| n <= j < i ==> filename@[j] == 0,
        decreases filename@.len() - i,
    {
        if filename[i] != 0 {
            return false;
        }
        i += 1;
    }
    true
}

/// One entry of the directory of the device.
#[derive(Debug, PartialEq, Eq)]
pub struct FwCfgFile {
    pub size: u32,
    pub select: u16,
    pub filename: Vec<u8>,
}

impl FwCfgFile {
    /// Reads an entry of the directory: 64 bytes that hold the size as a
    /// big-endian 32-bit number, the selector as a big-endian 16-bit number,
    /// two bytes that are not used, and the name in 56 bytes.
    pub fn parse(record: &[u8]) -> (file: Option<FwCfgFile>)
        ensures
            file is Some <==> record@.len() == 64,
            file matches Some(f) ==> f.size == be_value(record@, 0, 4) && f.select
                == be_value(record@, 4, 2) && f.filename@ == record@.subrange(8, 64),
    {
        if record.len() != 64 {
            return None;
        }
        proof {
            reveal_with_fuel(be_value, 5);
        }
        let size = 16777216 * (record[0] as u32) + 65536 * (record[1] as u32) + 256 * (
        record[2] as u32) + record[3] as u32;
        let select = 256 * (record[4] as u16) + record[5] as u16;
        let mut filename: Vec<u8> = Vec::new();
        let mut i: usize = 8;
        while i < 64
            invariant
                record@.len() == 64,
                8 <= i <= 64,
                filename@.len() == i - 8,
                forall|j: int| 0 <= j < i - 8 ==> filename@[j] == record@[j + 8],
            decreases 64 - i,
        {
            filename.push(record[i]);
            i += 1;
        }
        proof {
            assert(filename@ =~= record@.subrange(8, 64));
        }
        Some(FwCfgFile { size, select, filename })
    }

    pub fn size(&self) -> (s: usize)
        ensures
            s == self.size,
    {
        self.size as usize
    }

    pub fn select(&self) -> (s: u16)
        ensures
            s == self.select,
    {
        self.select
    }
}

/// The number of a command of the table loader.
#[derive(Clone, Copy, PartialEq, Eq, Structural, Debug)]
pub enum FwCfgLoaderCmdType {
    FwCfgLoaderCmdUnused,
    FwCfgLoaderCmdAllocate,
    FwCfgLoaderCmdAddPointer,
    FwCfgLoaderCmdAddChecksum,
    FwCfgLoaderCmdWritePointer,
}

/// The kind of command that the number `code` stands for.
pub fn command_type(code: u32) -> (t: Option<FwCfgLoaderCmdType>)
    ensures
        t == (if code == 0 {
            Some(FwCfgLoaderCmdType::FwCfgLoaderCmdUnused)
        } else if code == 1 {
            Some(FwCfgLoaderCmdType::FwCfgLoaderCmdAllocate)
        } else if code == 2 {
            Some(FwCfgLoaderCmdType::FwCfgLoaderCmdAddPointer)
        } else if code == 3 {
            Some(FwCfgLoaderCmdType::FwCfgLoaderCmdAddChecksum)
        } else if code == 4 {
            Some(FwCfgLoaderCmdType::FwCfgLoaderCmdWritePointer)
        } else {
            None
        }),
{
    if code == 0 {
        Some(FwCfgLoaderCmdType::FwCfgLoaderCmdUnused)
    } else if code == 1 {
        Some(FwCfgLoaderCmdType::FwCfgLoaderCmdAllocate)
    } else if code == 2 {
        Some(FwCfgLoaderCmdType::FwCfgLoaderCmdAddPointer)
    } else if code == 3 {
        Some(FwCfgLoaderCmdType::FwCfgLoaderCmdAddChecksum)
    } else if code == 4 {
        Some(FwCfgLoaderCmdType::FwCfgLoaderCmdWritePointer)
    } else {
        None
    }
}

/// Adds `addend` to the little-endian number of `size` bytes at `offset`,
/// cutting the sum to that many bytes. A size other than 1, 2, 4 and 8 leaves
/// the bytes as they are; a number that does not lie within the bytes is an
/// error.
pub fn add_value_at_offset(addend: u64, offset: usize, size: u8, buf: &mut [u8]) -> (res: Result<
    (),
    (),
>)
    ensures
        final(buf)@.len() == old(buf)@.len(),
        res is Ok <==> !(size == 1 || size == 2 || size == 4 || size == 8) || offset + size <= old(
            buf,
        )@.len(),
        res is Err ==> final(buf)@ == old(buf)@,
        res is Ok && !(size == 1 || size == 2 || size == 4 || size == 8) ==> final(buf)@ == old(
            buf,
        )@,
        res is Ok && (size == 1 || size == 2 || size == 4 || size == 8) ==> le_value(
            final(buf)@,
            offset as int,
            size as nat,
        ) == (le_value(old(buf)@, offset as int, size as nat) + addend) % pow256(size as nat)
            && forall|i: int|
            0 <= i < old(buf)@.len() && !(offset <= i < offset + size) ==> final(buf)@[i] == old(
                buf,
            )@[i],
{
    if !(size == 1 || size == 2 || size == 4 || size == 8) {
        return Ok(());
    }
    let n = size as usize;
    if buf.len() < n || offset > buf.len() - n {
        return Err(());
    }
    let old_value = read_le(buf, offset, n);
    let sum: u128 = old_value as u128 + addend as u128;
    let cut: u64 = (sum % 0x1_0000_0000_0000_0000) as u64;
    write_le(buf, offset, n, cut);
    proof {
        lemma_pow256_bound(n as nat);
        lemma_cut(sum as int, n as nat);
    }
    Ok(())
}

/// Makes the byte at `result_offset` the checksum of the `size` bytes from
/// `start` on: the byte that, added to them, gives zero modulo 256. Bytes
/// that do not lie in the table are an error.
pub fn add_checksum(table: &mut [u8], result_offset: u32, start: u32, size: u32) -> (res:
    Result<(), ()>)
    ensures
        final(table)@.len() == old(table)@.len(),
        res is Ok <==> start + size <= old(table)@.len() && result_offset < old(table)@.len(),
        res is Err ==> final(table)@ == old(table)@,
        res is Ok ==> final(table)@ == old(table)@.update(
            result_offset as int,
            checksum_of(byte_sum(old(table)@, start as int, start + size)) as u8,
        ),
{
    let len = table.len() as u64;
    let lo = start as u64;
    let hi = start as u64 + size as u64;
    if hi > len || result_offset as u64 >= len {
        return Err(());
    }
    let mut checksum: u8 = 0;
    let mut i: usize = start as usize;
    while i < hi as usize
        invariant
            lo == start,
            hi == start + size,
            hi <= table@.len(),
            lo <= i <= hi,
            table@ == old(table)@,
            checksum == checksum_of(byte_sum(table@, lo as int, i as int)),
        decreases hi - i,
    {
        let c = table[i];
        checksum = if checksum >= c {
            checksum - c
        } else {
            (256 - (c as u16 - checksum as u16)) as u8
        };
        i += 1;
    }
    table[result_offset as usize] = checksum;
    Ok(())
}

/// Where the bytes of a part of a file come from.
#[derive(Clone, Copy, PartialEq, Eq, Structural, Debug)]
pub enum RangeSource {
    /// From the bytes that were read ahead when the file was opened.
    Preload,
    /// From the device.
    Device,
}

/// Where `size` bytes at `offset` of a file of `file_size` bytes come from,
/// of which `preload_len` bytes were read ahead: from those, where they hold
/// the whole part; from the device otherwise. An offset beyond the end of the
/// file is an error.
pub fn load_range_source(offset: usize, size: usize, file_size: usize, preload_len: usize) -> (res:
    Result<RangeSource, ()>)
    ensures
        res == (if offset > file_size {
            Err::<RangeSource, ()>(())
        } else if offset + size <= preload_len {
            Ok::<RangeSource, ()>(RangeSource::Preload)
        } else {
            Ok::<RangeSource, ()>(RangeSource::Device)
        }),
{
    if offset > file_size {
        return Err(());
    }
    if size <= preload_len && offset <= preload_len - size {
        return Ok(RangeSource::Preload);
    }
    Ok(RangeSource::Device)
}

/// A command of the table loader.
#[derive(Debug, PartialEq, Eq)]
pub enum LoaderCommand {
    /// An empty record.
    Unused,
    /// Load the named file into memory of its own.
    Allocate { filename: Vec<u8>, alignment: u32, zone: u8 },
    /// Add the address of the loaded file `pointee` to the number of `size`
    /// bytes at `offset` of the loaded file `pointer`.
    AddPointer { pointer: Vec<u8>, pointee: Vec<u8>, offset: u32, size: u8 },
    /// Put the checksum of `length` bytes from `start` on at `result_offset` of
    /// the named loaded file.
    AddChecksum { filename: Vec<u8>, result_offset: u32, start: u32, length: u32 },
    /// Write the address of a loaded file back to the device.
    WritePointer {
        pointer: Vec<u8>,
        pointee: Vec<u8>,
        pointer_offset: u32,
        pointee_offset: u32,
        size: u8,
    },
}

/// Reads the command that a record of the table loader holds: 128 bytes
/// that start with the number of the command as a little-endian 32-bit
/// number. File names take 56 bytes; numbers are little-endian. A record of
/// another size, or with a number that stands for no command, holds none.
pub fn parse_command(record: &[u8]) -> (cmd: Option<LoaderCommand>)
    ensures
        cmd is Some <==> record@.len() == 128 && le_value(record@, 0, 4) <= 4,
        match cmd {
            Some(LoaderCommand::Unused) => le_value(record@, 0, 4) == 0,
            Some(LoaderCommand::Allocate { filename, alignment, zone }) => {
                &&& le_value(record@, 0, 4) == 1
                &&& filename@ == record@.subrange(4, 60)
                &&& alignment == le_value(record@, 60, 4)
                &&& zone == record@[64]
            },
            Some(LoaderCommand::AddPointer { pointer, pointee, offset, size }) => {
                &&& le_value(record@, 0, 4) == 2
                &&& pointer@ == record@.subrange(4, 60)
                &&& pointee@ == record@.subrange(60, 116)
                &&& offset == le_value(record@, 116, 4)
                &&& size == record@[120]
            },
            Some(LoaderCommand::AddChecksum { filename, result_offset, start, length }) => {
                &&& le_value(record@, 0, 4) == 3
                &&& filename@ == record@.subrange(4, 60)
                &&& result_offset == le_value(record@, 60, 4)
                &&& start == le_value(record@, 64, 4)
                &&& length == le_value(record@, 68, 4)
            },
            Some(
                LoaderCommand::WritePointer { pointer, pointee, pointer_offset, pointee_offset, size },
            ) => {
                &&& le_value(record@, 0, 4) == 4
                &&& pointer@ == record@.subrange(4, 60)
                &&& pointee@ == record@.subrange(60, 116)
                &&& pointer_offset == le_value(record@, 116, 4)
                &&& pointee_offset == le_value(record@, 120, 4)
                &&& size == record@[124]
            },
            None => true,
        },
{
    if record.len() != 128 {
        return None;
    }
    proof {
        reveal_with_fuel(pow256, 5);
    }
    let code = read_le(record, 0, 4);
    if code == 0 {
        Some(LoaderCommand::Unused)
    } else if code == 1 {
        Some(
            LoaderCommand::Allocate {
                filename: copy_range(record, 4, 60),
                alignment: read_le(record, 60, 4) as u32,
                zone: record[64],
            },
        )
    } else if code == 2 {
        Some(
            LoaderCommand::AddPointer {
                pointer: copy_range(record, 4, 60),
                pointee: copy_range(record, 60, 116),
                offset: read_le(record, 116, 4) as u32,
                size: record[120],
            },
        )
    } else if code == 3 {
        Some(
            LoaderCommand::AddChecksum {
                filename: copy_range(record, 4, 60),
                result_offset: read_le(record, 60, 4) as u32,
                start: read_le(record, 64, 4) as u32,
                length: read_le(record, 68, 4) as u32,
            },
        )
    } else if code == 4 {
        Some(
            LoaderCommand::WritePointer {
                pointer: copy_range(record, 4, 60),
                pointee: copy_range(record, 60, 116),
                pointer_offset: read_le(record, 116, 4) as u32,
                pointee_offset: read_le(record, 120, 4) as u32,
                size: record[124],
            },
        )
    } else {
        None
    }
}

/// Whether the firmware carries the command out: it allocates, adds
/// pointers and adds checksums, and gives up on anything else.
pub fn command_supported(cmd: &LoaderCommand) -> (r: bool)
    ensures
        r == (*cmd is Allocate || *cmd is AddPointer || *cmd is AddChecksum),
{
    match cmd {
        LoaderCommand::Allocate { .. } => true,
        LoaderCommand::AddPointer { .. } => true,
        LoaderCommand::AddChecksum { .. } => true,
        _ => false,
    }
}

/// Finishes the anchor of the system management tables once both are in
/// memory: writes the address of the tables as a little-endian 64-bit number
/// at offset 16, and puts at offset 5 the checksum of the first bytes of the
/// anchor, as many as the byte at offset 6 says. An anchor of fewer than 24
/// bytes, or one that claims more bytes than it has, is an error.
pub fn finish_smbios_anchor(anchor: &mut [u8], tables: u64) -> (res: Result<(), ()>)
    ensures
        final(anchor)@.len() == old(anchor)@.len(),
        res is Ok <==> old(anchor)@.len() >= 24 && old(anchor)@[6] <= old(anchor)@.len(),
        res is Err ==> final(anchor)@ == old(anchor)@,
        res is Ok ==> {
            &&& le_value(final(anchor)@, 16, 8) == tables
            &&& forall|i: int|
                0 <= i < old(anchor)@.len() && i != 5 && !(16 <= i < 24) ==> final(anchor)@[i]
                    == old(anchor)@[i]
            &&& final(anchor)@[5] == checksum_of(
                byte_sum(final(anchor)@.update(5, old(anchor)@[5]), 0, old(anchor)@[6] as int),
            )
        },
{
    if anchor.len() < 24 {
        return Err(());
    }
    let size = anchor[6];
    if size as usize > anchor.len() {
        return Err(());
    }
    write_le(anchor, 16, 8, tables);
    proof {
        reveal_with_fuel(pow256, 10);
        assert(pow256(8) == 0x1_0000_0000_0000_0000);
    }
    let ghost patched = anchor@;
    let r = add_checksum(anchor, 5, 0, size as u32);
    proof {
        assert(anchor@.update(5, old(anchor)@[5]) =~= patched);
        lemma_le_value_same(patched, anchor@, 16, 8);
    }
    r
}

} // verus!
