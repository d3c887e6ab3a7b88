use vstd::prelude::*;
use vstd::slice::slice_subrange;
use super::archive_info::{
    lemma_archive_info_round_trip, slice_to_archive_info, spec_slice_to_archive_info, ArchiveInfo,
    ArchiveInfoError, ARCHIVE_INFO_SIZE,
};
use super::metadata::{
    lemma_metadata_round_trip, slice_to_metadata, spec_slice_to_metadata, AggregationType,
    Metadata,
};
use crate::whisper::schema::{spec_fits_at, spec_valid, RetentionPolicy, Schema};

verus! {

/// Bytes that the metadata block takes; the archive descriptors follow it.
pub const HEADER_SIZE: usize = 16;

/// The metadata of a file and the descriptors of its archives, finest first.
#[derive(PartialEq, Debug)]
pub struct Header {
    pub metadata: Metadata,
    pub archive_infos: Vec<ArchiveInfo>,
}

/// A header as a mathematical value.
pub struct HeaderView {
    pub metadata: Metadata,
    pub archive_infos: Seq<ArchiveInfo>,
}

/// Why bytes are not a header.
#[derive(PartialEq, Eq, Structural, Debug, Clone, Copy)]
pub enum HeaderError {
    /// The bytes end before the header does.
    Truncated,
    /// The aggregation code is none of the known methods.
    UnknownAggregation,
    /// The header announces no archive.
    NoArchives,
    /// A descriptor describes no archive.
    BadArchive(ArchiveInfoError),
    /// The longest retention is not that of the last archive.
    RetentionMismatch,
}

impl View for Header {
    type V = HeaderView;

    open spec fn view(&self) -> HeaderView {
        HeaderView { metadata: self.metadata, archive_infos: self.archive_infos@ }
    }
}

impl HeaderView {
    /// The header has as many archives as it announces, at least one, each
    /// of them well-formed, and keeps data as long as its last archive does.
    pub open spec fn wf(&self) -> bool {
        &&& self.metadata.wf()
        &&& self.archive_infos.len() == self.metadata.archive_count
        &&& self.archive_infos.len() > 0
        &&& forall|i: int| 0 <= i < self.archive_infos.len() ==> (#[trigger] self.archive_infos[i]).wf()
        &&& self.metadata.max_retention == self.archive_infos.last().retention
    }

    /// The first archive starts where the descriptors end, and each other
    /// archive where the one before it ends.
    pub open spec fn contiguous(&self) -> bool {
        &&& self.archive_infos.len() > 0 ==> self.archive_infos[0].offset == HEADER_SIZE
            + self.archive_infos.len() * ARCHIVE_INFO_SIZE
        &&& forall|i: int|
            0 <= i < self.archive_infos.len() - 1 ==> (#[trigger] self.archive_infos[i + 1]).offset
                == self.archive_infos[i].offset + self.archive_infos[i].size_in_bytes
    }
}

/// The descriptors of `archives`, one after the other.
pub open spec fn spec_archives_to_bytes(archives: Seq<ArchiveInfo>) -> Seq<u8>
    decreases archives.len(),
{
    if archives.len() == 0 {
        Seq::empty()
    } else {
        spec_archives_to_bytes(archives.drop_last()) + archives.last().spec_to_bytes()
    }
}

/// The bytes of a header: the metadata block, then the descriptors.
pub open spec fn spec_write_header(h: HeaderView) -> Seq<u8> {
    h.metadata.spec_to_bytes() + spec_archives_to_bytes(h.archive_infos)
}

/// The first `count` descriptors that follow the metadata block in `bytes`,
/// or what is wrong with the first of them that cannot be decoded.
pub open spec fn spec_read_archives(bytes: Seq<u8>, count: nat) -> Result<
    Seq<ArchiveInfo>,
    HeaderError,
>
    decreases count,
{
    if count == 0 {
        Ok(Seq::empty())
    } else {
        match spec_read_archives(bytes, (count - 1) as nat) {
            Err(e) => Err(e),
            Ok(before) => if bytes.len() < 16 + 12 * count {
                Err(HeaderError::Truncated)
            } else {
                match spec_slice_to_archive_info(
                    bytes.subrange(16 + 12 * (count - 1), 16 + 12 * (count as int)),
                ) {
                    Err(e) => Err(HeaderError::BadArchive(e)),
                    Ok(a) => Ok(before.push(a)),
                }
            },
        }
    }
}

/// The header that `bytes` start with, or why they start with none.
pub open spec fn spec_read_header(bytes: Seq<u8>) -> Result<HeaderView, HeaderError> {
    if bytes.len() < 16 {
        Err(HeaderError::Truncated)
    } else {
        match spec_slice_to_metadata(bytes) {
            None => Err(HeaderError::UnknownAggregation),
            Some(metadata) => if metadata.archive_count == 0 {
                Err(HeaderError::NoArchives)
            } else {
                match spec_read_archives(bytes, metadata.archive_count as nat) {
                    Err(e) => Err(e),
                    Ok(archive_infos) => if archive_infos.last().retention
                        != metadata.max_retention {
                        Err(HeaderError::RetentionMismatch)
                    } else {
                        Ok(HeaderView { metadata, archive_infos })
                    },
                }
            },
        }
    }
}

/// Once a descriptor fails to decode, reading more of them fails alike.
pub proof fn lemma_read_archives_error_stays(bytes: Seq<u8>, k: nat, n: nat)
    requires
        k <= n,
        spec_read_archives(bytes, k) is Err,
    ensures
        spec_read_archives(bytes, n) == spec_read_archives(bytes, k),
    decreases n,
{
    if k < n {
        lemma_read_archives_error_stays(bytes, k, (n - 1) as nat);
    }
}

/// Decoded descriptors are well-formed, and there are as many as asked for.
pub proof fn lemma_read_archives_wf(bytes: Seq<u8>, n: nat)
    requires
        spec_read_archives(bytes, n) is Ok,
    ensures
        spec_read_archives(bytes, n)->Ok_0.len() == n,
        forall|i: int| 0 <= i < n ==> (#[trigger] spec_read_archives(bytes, n)->Ok_0[i]).wf(),
    decreases n,
{
    if n > 0 {
        lemma_read_archives_wf(bytes, (n - 1) as nat);
    }
}

/// Reads a header from the start of `bytes`: the metadata block, then as
/// many descriptors as it announces.
pub fn read_header(bytes: &[u8]) -> (res: Result<Header, HeaderError>)
    ensures
        match res {
            Ok(h) => spec_read_header(bytes@) == Ok::<HeaderView, HeaderError>(h@) && h@.wf(),
            Err(e) => spec_read_header(bytes@) == Err::<HeaderView, HeaderError>(e),
        },
{
    let len = bytes.len();
    if len < HEADER_SIZE {
        return Err(HeaderError::Truncated);
    }
    let metadata = match slice_to_metadata(bytes) {
        None => { return Err(HeaderError::UnknownAggregation); },
        Some(m) => m,
    };
    let count = metadata.archive_count;
    if count == 0 {
        return Err(HeaderError::NoArchives);
    }
    let mut archive_infos: Vec<ArchiveInfo> = Vec::new();
    let mut pos: usize = HEADER_SIZE;
    let mut index: u32 = 0;
    while index < count
        invariant
            index <= count,
            count == metadata.archive_count,
            count > 0,
            len >= 16,
            spec_slice_to_metadata(bytes@) == Some(metadata),
            len == bytes@.len(),
            pos == 16 + 12 * index,
            pos <= len,
            spec_read_archives(bytes@, index as nat) == Ok::<Seq<ArchiveInfo>, HeaderError>(
                archive_infos@,
            ),
        decreases count - index,
    {
        if len - pos < ARCHIVE_INFO_SIZE {
            proof {
                lemma_read_archives_error_stays(bytes@, (index + 1) as nat, count as nat);
            }
            return Err(HeaderError::Truncated);
        }
        let record = slice_subrange(bytes, pos, pos + ARCHIVE_INFO_SIZE);
        match slice_to_archive_info(record) {
            Err(e) => {
                proof {
                    lemma_read_archives_error_stays(bytes@, (index + 1) as nat, count as nat);
                }
                return Err(HeaderError::BadArchive(e));
            },
            Ok(archive_info) => {
                archive_infos.push(archive_info);
            },
        }
        pos = pos + ARCHIVE_INFO_SIZE;
        index = index + 1;
    }
    proof {
        lemma_read_archives_wf(bytes@, count as nat);
    }
    if archive_infos[archive_infos.len() - 1].retention != metadata.max_retention {
        return Err(HeaderError::RetentionMismatch);
    }
    Ok(Header { metadata, archive_infos })
}

/// The bytes of a header, as they stand at the start of a file.
pub fn write_header(header: &Header) -> (out: Vec<u8>)
    requires
        header@.wf(),
    ensures
        out@ == spec_write_header(header@),
        out@.len() == HEADER_SIZE + header@.archive_infos.len() * ARCHIVE_INFO_SIZE,
{
    let mut out = header.metadata.to_bytes();
    let mut index: usize = 0;
    while index < header.archive_infos.len()
        invariant
            index <= header.archive_infos.len(),
            header@.wf(),
            out@ == header.metadata.spec_to_bytes() + spec_archives_to_bytes(
                header.archive_infos@.take(index as int),
            ),
            out@.len() == 16 + 12 * index,
        decreases header.archive_infos.len() - index,
    {
        let mut record = header.archive_infos[index].to_bytes();
        proof {
            let next = header.archive_infos@.take(index + 1);
            assert(next.drop_last() =~= header.archive_infos@.take(index as int));
            assert(out@ + record@ =~= header.metadata.spec_to_bytes() + spec_archives_to_bytes(
                next,
            ));
        }
        out.append(&mut record);
        index = index + 1;
    }
    assert(header.archive_infos@.take(index as int) =~= header.archive_infos@);
    out
}

/// The descriptors of `n` archives take `12 * n` bytes.
pub proof fn lemma_archives_to_bytes_len(archives: Seq<ArchiveInfo>)
    ensures
        spec_archives_to_bytes(archives).len() == 12 * archives.len(),
    decreases archives.len(),
{
    if archives.len() > 0 {
        lemma_archives_to_bytes_len(archives.drop_last());
    }
}

/// In the written descriptors, the twelve bytes at `12 * j` are the
/// descriptor of archive `j`.
proof fn lemma_record_at(archives: Seq<ArchiveInfo>, j: int)
    requires
        0 <= j < archives.len(),
    ensures
        spec_archives_to_bytes(archives).len() == 12 * archives.len(),
        spec_archives_to_bytes(archives).subrange(12 * j, 12 * j + 12)
            == archives[j].spec_to_bytes(),
    decreases archives.len(),
{
    let shorter = archives.drop_last();
    let record = archives.last().spec_to_bytes();
    let all = spec_archives_to_bytes(archives);
    lemma_archives_to_bytes_len(archives);
    lemma_archives_to_bytes_len(shorter);
    assert(all == spec_archives_to_bytes(shorter) + record);
    assert(record.len() == 12);
    if j == archives.len() - 1 {
        assert(all.subrange(12 * j, 12 * j + 12) =~= record);
    } else {
        lemma_record_at(shorter, j);
        assert(all.subrange(12 * j, 12 * j + 12) =~= spec_archives_to_bytes(shorter).subrange(
            12 * j,
            12 * j + 12,
        ));
    }
}

/// Reading `n` descriptors from a written header gives its first `n` archives.
proof fn lemma_read_written_archives(h: HeaderView, n: nat)
    requires
        h.wf(),
        n <= h.archive_infos.len(),
    ensures
        spec_read_archives(spec_write_header(h), n) == Ok::<Seq<ArchiveInfo>, HeaderError>(
            h.archive_infos.take(n as int),
        ),
    decreases n,
{
    let bytes = spec_write_header(h);
    let m = n as int;
    if n == 0 {
        assert(h.archive_infos.take(0) =~= Seq::<ArchiveInfo>::empty());
    } else {
        lemma_read_written_archives(h, (n - 1) as nat);
        let a = h.archive_infos[m - 1];
        let record = bytes.subrange(16 + 12 * (m - 1), 16 + 12 * m);
        assert(bytes.len() >= 16 + 12 * m && record == a.spec_to_bytes()) by {
            let head = h.metadata.spec_to_bytes();
            let all = spec_archives_to_bytes(h.archive_infos);
            lemma_metadata_round_trip(h.metadata);
            lemma_record_at(h.archive_infos, m - 1);
            assert(head.len() == 16);
            assert(bytes == head + all);
            assert(record =~= all.subrange(12 * (m - 1), 12 * (m - 1) + 12));
        }
        lemma_archive_info_round_trip(a);
        assert(h.archive_infos.take(m - 1).push(a) =~= h.archive_infos.take(m));
    }
}

/// A header that is written and read again is the header that was written.
pub proof fn lemma_header_round_trip(h: HeaderView)
    requires
        h.wf(),
    ensures
        spec_read_header(spec_write_header(h)) == Ok::<HeaderView, HeaderError>(h),
{
    let bytes = spec_write_header(h);
    lemma_metadata_round_trip(h.metadata);
    lemma_archives_to_bytes_len(h.archive_infos);
    lemma_read_written_archives(h, h.archive_infos.len());
    assert(h.archive_infos.take(h.archive_infos.len() as int) =~= h.archive_infos);
    assert(spec_slice_to_metadata(bytes) == spec_slice_to_metadata(h.metadata.spec_to_bytes()));
}

/// Why a schema makes no header.
#[derive(PartialEq, Eq, Structural, Debug, Clone, Copy)]
pub enum CreateError {
    /// The threshold is no fraction between zero and one.
    XFilesFactorOutOfRange,
    /// A field of the header would not fit the 32 bits it is stored in.
    TooLarge,
}

/// The bit pattern is that of a single between zero and one. Among the
/// patterns without a sign, order is the order of the numbers they stand
/// for, and that of one is the largest allowed.
pub open spec fn spec_is_fraction(x_files_factor: u32) -> bool {
    x_files_factor <= 0x3f80_0000
}

/// Where the archive of policy `i` starts: behind the descriptors and the
/// archives of the policies before it.
pub open spec fn spec_archive_offset(policies: Seq<RetentionPolicy>, i: nat) -> int
    decreases i,
{
    if i == 0 {
        16 + 12 * (policies.len() as int)
    } else {
        spec_archive_offset(policies, (i - 1) as nat) + policies[i - 1].precision * policies[i
            - 1].points * 12
    }
}

/// The descriptor of the archive of policy `i`.
pub open spec fn spec_archive_at(policies: Seq<RetentionPolicy>, i: int) -> ArchiveInfo {
    ArchiveInfo {
        offset: spec_archive_offset(policies, i as nat) as u64,
        seconds_per_point: policies[i].precision,
        points: policies[i].points,
        retention: (policies[i].precision * policies[i].points) as u64,
        size_in_bytes: (policies[i].precision * policies[i].points * 12) as u64,
    }
}

/// Every stored field of the header of these policies fits its 32 bits.
pub open spec fn spec_fits_format(policies: Seq<RetentionPolicy>) -> bool {
    &&& policies.len() <= u32::MAX
    &&& forall|i: int|
        0 <= i < policies.len() ==> {
            &&& (#[trigger] policies[i]).precision <= u32::MAX
            &&& policies[i].points <= u32::MAX
        }
    &&& forall|i: int|
        0 <= i < policies.len() ==> #[trigger] spec_archive_offset(policies, i as nat) <= u32::MAX
    &&& policies.last().precision * policies.last().points <= u32::MAX
}

/// The header of a file with these policies.
pub open spec fn spec_header(
    policies: Seq<RetentionPolicy>,
    aggregation_type: AggregationType,
    x_files_factor: u32,
) -> HeaderView {
    HeaderView {
        metadata: Metadata {
            aggregation_type,
            max_retention: (policies.last().precision * policies.last().points) as u64,
            x_files_factor,
            archive_count: policies.len() as u32,
        },
        archive_infos: Seq::new(policies.len(), |i: int| spec_archive_at(policies, i)),
    }
}

/// The archives of a schema's header lie one behind the other, the first
/// of them right behind the descriptors.
pub proof fn lemma_layout_contiguous(
    policies: Seq<RetentionPolicy>,
    aggregation_type: AggregationType,
    x_files_factor: u32,
)
    requires
        spec_valid(policies),
        spec_fits_format(policies),
    ensures
        spec_header(policies, aggregation_type, x_files_factor).wf(),
        spec_header(policies, aggregation_type, x_files_factor).contiguous(),
{
    let h = spec_header(policies, aggregation_type, x_files_factor);
    assert forall|i: int| 0 <= i < policies.len() implies {
        &&& (#[trigger] h.archive_infos[i]).wf()
        &&& h.archive_infos[i].offset == spec_archive_offset(policies, i as nat)
        &&& i < policies.len() - 1 ==> h.archive_infos[i + 1].offset == h.archive_infos[i].offset
            + h.archive_infos[i].size_in_bytes
    } by {
        lemma_archive_fits(policies, i);
        if i < policies.len() - 1 {
            lemma_archive_fits(policies, i + 1);
        }
    }
    lemma_archive_fits(policies, policies.len() - 1);
}

/// The header of a valid schema that fits the format, written and read
/// again, is that header.
pub proof fn lemma_schema_header_round_trip(
    policies: Seq<RetentionPolicy>,
    aggregation_type: AggregationType,
    x_files_factor: u32,
)
    requires
        spec_valid(policies),
        spec_fits_format(policies),
    ensures
        spec_read_header(
            spec_write_header(spec_header(policies, aggregation_type, x_files_factor)),
        ) == Ok::<HeaderView, HeaderError>(
            spec_header(policies, aggregation_type, x_files_factor),
        ),
{
    lemma_layout_contiguous(policies, aggregation_type, x_files_factor);
    lemma_header_round_trip(spec_header(policies, aggregation_type, x_files_factor));
}

/// In a header that fits the format, each archive ends within 64 bits, and
/// its offset is at least the size of the metadata block.
proof fn lemma_archive_fits(policies: Seq<RetentionPolicy>, i: int)
    requires
        spec_valid(policies),
        spec_fits_format(policies),
        0 <= i < policies.len(),
    ensures
        16 <= spec_archive_offset(policies, i as nat) <= u32::MAX,
        0 < policies[i].precision * policies[i].points,
        spec_archive_offset(policies, i as nat) + policies[i].precision * policies[i].points * 12
            <= u64::MAX,
        spec_archive_at(policies, i).wf(),
    decreases i,
{
    let p = policies[i];
    let here = spec_archive_offset(policies, i as nat);
    assert(here <= u32::MAX);
    assert(spec_fits_at(policies, i));
    assert(0 < p.precision * p.points) by (nonlinear_arith)
        requires
            p.precision > 0,
            p.points > 0,
    {
    }
    if i > 0 {
        lemma_archive_fits(policies, i - 1);
    }
    if i < policies.len() - 1 {
        assert(spec_archive_offset(policies, (i + 1) as nat) <= u32::MAX);
    } else {
        assert(p == policies.last());
    }
}

impl Header {
    /// The header of a new file with the archives of `schema`, the first
    /// of them right behind the descriptors and each other one behind the
    /// one before it.
    pub fn from_schema(schema: &Schema, aggregation_type: AggregationType, x_files_factor: u32) -> (res:
        Result<Header, CreateError>)
        requires
            spec_valid(schema@),
        ensures
            match res {
                Ok(header) => {
                    &&& spec_is_fraction(x_files_factor)
                    &&& spec_fits_format(schema@)
                    &&& header@ == spec_header(schema@, aggregation_type, x_files_factor)
                    &&& header@.wf()
                    &&& header@.contiguous()
                },
                Err(CreateError::XFilesFactorOutOfRange) => !spec_is_fraction(x_files_factor),
                Err(CreateError::TooLarge) => spec_is_fraction(x_files_factor) && !spec_fits_format(
                    schema@,
                ),
            },
    {
        if x_files_factor > 0x3f80_0000 {
            return Err(CreateError::XFilesFactorOutOfRange);
        }
        let policies = &schema.retention_policies;
        let n = policies.len();
        if n > 0xFFFF_FFFF {
            return Err(CreateError::TooLarge);
        }
        let mut archive_infos: Vec<ArchiveInfo> = Vec::new();
        let mut offset: u64 = 16 + 12 * (n as u64);
        let mut i: usize = 0;
        while i < n
            invariant
                0 <= i <= n <= u32::MAX,
                n == policies@.len(),
                policies@ == schema@,
                spec_valid(schema@),
                spec_is_fraction(x_files_factor),
                offset as int == spec_archive_offset(schema@, i as nat),
                archive_infos@.len() == i,
                forall|j: int|
                    0 <= j < i ==> (#[trigger] archive_infos@[j]).wf() && archive_infos@[j]
                        == spec_archive_at(schema@, j),
                forall|j: int|
                    0 <= j < i ==> {
                        &&& (#[trigger] schema@[j]).precision <= u32::MAX
                        &&& schema@[j].points <= u32::MAX
                    },
                forall|j: int|
                    0 <= j < i ==> #[trigger] spec_archive_offset(schema@, j as nat) <= u32::MAX,
            decreases n - i,
        {
            let p = &policies[i];
            let ghost at = i as int;
            assert(spec_fits_at(schema@, at));
            if p.precision > 0xFFFF_FFFF || p.points > 0xFFFF_FFFF || offset > 0xFFFF_FFFF {
                assert(!spec_fits_format(schema@)) by {
                    if spec_fits_format(schema@) {
                        assert(schema@[at].precision <= u32::MAX);
                        assert(spec_archive_offset(schema@, at as nat) <= u32::MAX);
                    }
                }
                return Err(CreateError::TooLarge);
            }
            match ArchiveInfo::new(offset as u32, p.precision as u32, p.points as u32) {
                Err(_) => {
                    assert(!spec_fits_format(schema@)) by {
                        if spec_fits_format(schema@) {
                            lemma_archive_fits(schema@, at);
                        }
                    }
                    return Err(CreateError::TooLarge);
                },
                Ok(archive_info) => {
                    offset = archive_info.offset + archive_info.size_in_bytes;
                    archive_infos.push(archive_info);
                },
            }
            i = i + 1;
        }
        let max_retention = archive_infos[n - 1].retention;
        if max_retention > 0xFFFF_FFFF {
            return Err(CreateError::TooLarge);
        }
        let header = Header {
            metadata: Metadata {
                aggregation_type,
                max_retention,
                x_files_factor,
                archive_count: n as u32,
            },
            archive_infos,
        };
        proof {
            assert(archive_infos@[n - 1].wf());
            assert(schema@.last() == schema@[n - 1]);
            assert(spec_fits_format(schema@));
            assert(header@.archive_infos =~= spec_header(
                schema@,
                aggregation_type,
                x_files_factor,
            ).archive_infos);
            lemma_layout_contiguous(schema@, aggregation_type, x_files_factor);
        }
        Ok(header)
    }

    /// The length of the whole file: the header, then every archive.
    pub fn file_size(&self) -> (size: u64)
        requires
            self@.wf(),
        ensures
            size == self@.archive_infos.last().offset + self@.archive_infos.last().size_in_bytes,
    {
        let last = &self.archive_infos[self.archive_infos.len() - 1];
        last.offset + last.size_in_bytes
    }
}

} // verus!
