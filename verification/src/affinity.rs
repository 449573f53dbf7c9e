//! Processor placement: decoding the processor-topology records Windows reports,
//! and choosing the parent's and the worker's logical processors from them.
use vstd::bytes::{
    spec_u16_from_le_bytes, spec_u32_from_le_bytes, spec_u64_from_le_bytes, u16_from_le_bytes,
    u32_from_le_bytes, u64_from_le_bytes,
};
use vstd::arithmetic::power2::{
    lemma2_to64, lemma_pow2_pos, lemma_pow2_strictly_increases, lemma_pow2_unfold, pow2,
};
use vstd::bits::{lemma_usize_pow2_no_overflow, lemma_usize_shl_is_mul, lemma_usize_shr_is_div};
use vstd::prelude::*;

use crate::config::is_power_of_two_spec;
use crate::text::{parse_usize, parse_usize_spec, split_two_fields, str_eq, trimmed_lower_equals, two_fields, ascii_lower_seq, trim_spec};

verus! {

/// Which relation a topology entry describes.
#[derive(Clone, Copy, Debug, PartialEq, Eq, Structural)]
pub enum TopologyKind {
    Core,
    Cache,
}

/// One processor core or cache, with the logical processors it covers in its group.
#[derive(Clone, Copy, Debug, PartialEq, Eq, Structural)]
pub struct CpuTopology {
    pub kind: TopologyKind,
    pub group: u16,
    pub mask: usize,
    pub cache_level: Option<u8>,
}

/// A record of the topology report is malformed.
#[derive(Clone, Copy, Debug, PartialEq, Eq, Structural)]
pub enum TopologyError {
    InvalidRecord,
}

/// Offset of the group-mask count in a record of the given relation.
pub open spec fn count_offset(kind: TopologyKind) -> nat {
    match kind {
        TopologyKind::Core => 30,
        TopologyKind::Cache => 38,
    }
}

/// Offset of the first group mask in a record of the given relation.
pub open spec fn masks_offset(kind: TopologyKind) -> nat {
    count_offset(kind) + 2
}

pub open spec fn record_mask_count(record: Seq<u8>, kind: TopologyKind) -> nat {
    spec_u16_from_le_bytes(
        record.subrange(count_offset(kind) as int, (count_offset(kind) + 2) as int),
    ) as nat
}

/// A record is usable when it holds its count, at least one group mask, and all of them.
pub open spec fn record_ok(record: Seq<u8>, kind: TopologyKind) -> bool {
    &&& record.len() >= masks_offset(kind)
    &&& record_mask_count(record, kind) > 0
    &&& masks_offset(kind) + record_mask_count(record, kind) * 16 <= record.len()
}

/// The entry for the `i`th group mask of a record: 8 mask bytes, then 2 group bytes.
pub open spec fn record_entry(record: Seq<u8>, kind: TopologyKind, i: int) -> CpuTopology {
    let start = masks_offset(kind) + i * 16;
    CpuTopology {
        kind,
        group: spec_u16_from_le_bytes(record.subrange(start + 8, start + 10)),
        mask: spec_u64_from_le_bytes(record.subrange(start, start + 8)) as usize,
        cache_level: match kind {
            TopologyKind::Core => None,
            TopologyKind::Cache => Some(record[8]),
        },
    }
}

pub open spec fn record_entries(record: Seq<u8>, kind: TopologyKind) -> Seq<CpuTopology> {
    Seq::new(record_mask_count(record, kind), |i: int| record_entry(record, kind, i))
}

/// The entries of the records from `offset` on: each record starts with a 4-byte
/// relation and a 4-byte size (at least 8, within the data); any malformed record
/// spoils the whole report.
pub open spec fn parse_records(data: Seq<u8>, kind: TopologyKind, offset: nat) -> Option<
    Seq<CpuTopology>,
>
    decreases data.len() - offset,
{
    if offset >= data.len() {
        Some(Seq::empty())
    } else if data.len() - offset < 8 {
        None
    } else {
        let size = spec_u32_from_le_bytes(data.subrange((offset + 4) as int, (offset + 8) as int)) as nat;
        if size < 8 || size > data.len() - offset {
            None
        } else {
            let record = data.subrange(offset as int, (offset + size) as int);
            if !record_ok(record, kind) {
                None
            } else {
                match parse_records(data, kind, offset + size) {
                    Some(rest) => Some(record_entries(record, kind) + rest),
                    None => None,
                }
            }
        }
    }
}

/// Decoding from `offset` reads only the data from `offset` on.
proof fn lemma_parse_reads_suffix(d1: Seq<u8>, d2: Seq<u8>, kind: TopologyKind, offset: nat)
    requires
        d1.len() == d2.len(),
        offset <= d1.len() ==> d1.subrange(offset as int, d1.len() as int) == d2.subrange(
            offset as int,
            d2.len() as int,
        ),
    ensures
        parse_records(d1, kind, offset) == parse_records(d2, kind, offset),
    decreases d1.len() - offset,
{
    if offset < d1.len() && d1.len() - offset >= 8 {
        let n = d1.len() as int;
        let o = offset as int;
        assert forall|i: int| o <= i < n implies d1[i] == d2[i] by {
            assert(d1[i] == d1.subrange(o, n)[i - o]);
            assert(d2[i] == d2.subrange(o, n)[i - o]);
        }
        assert(d1.subrange(o + 4, o + 8) =~= d2.subrange(o + 4, o + 8));
        let size = spec_u32_from_le_bytes(d1.subrange(o + 4, o + 8)) as nat;
        if size >= 8 && size <= d1.len() - offset {
            assert(d1.subrange(o, o + size) =~= d2.subrange(o, o + size));
            if offset + size <= d1.len() {
                assert(d1.subrange(o + size, n) =~= d2.subrange(o + size, n));
            }
            lemma_parse_reads_suffix(d1, d2, kind, offset + size);
        }
    }
}

/// A record's decoding does not read its first four bytes.
proof fn lemma_record_ignores_relation(r1: Seq<u8>, r2: Seq<u8>, kind: TopologyKind)
    requires
        r1.len() == r2.len(),
        r1.len() >= 4,
        r1.subrange(4, r1.len() as int) == r2.subrange(4, r2.len() as int),
    ensures
        record_ok(r1, kind) == record_ok(r2, kind),
        record_ok(r1, kind) ==> record_entries(r1, kind) == record_entries(r2, kind),
{
    let n = r1.len() as int;
    assert forall|i: int| 4 <= i < n implies r1[i] == r2[i] by {
        assert(r1[i] == r1.subrange(4, n)[i - 4]);
        assert(r2[i] == r2.subrange(4, n)[i - 4]);
    }
    let c = count_offset(kind) as int;
    if r1.len() >= masks_offset(kind) {
        assert(r1.subrange(c, c + 2) =~= r2.subrange(c, c + 2));
    }
    if record_ok(r1, kind) {
        let m = masks_offset(kind) as int;
        assert forall|i: int| 0 <= i < record_mask_count(r1, kind) implies record_entry(
            r1,
            kind,
            i,
        ) == record_entry(r2, kind, i) by {
            let start = m + i * 16;
            assert(start + 16 <= n) by (nonlinear_arith)
                requires
                    0 <= i < record_mask_count(r1, kind),
                    m + record_mask_count(r1, kind) * 16 <= n,
                    start == m + i * 16,
            ;
            assert(r1.subrange(start, start + 8) =~= r2.subrange(start, start + 8));
            assert(r1.subrange(start + 8, start + 10) =~= r2.subrange(start + 8, start + 10));
        }
        assert(record_entries(r1, kind) =~= record_entries(r2, kind));
    } else if r1.len() >= masks_offset(kind) {
        assert(record_mask_count(r1, kind) == record_mask_count(r2, kind));
    }
}

/// The relation field of a record (its first four bytes) plays no part in decoding:
/// replacing it with any four bytes, in any record of the report, decodes to the
/// same entries or the same refusal. Which relation a report holds is given by
/// `kind`, as it was requested.
pub proof fn lemma_relation_field_ignored(
    data: Seq<u8>,
    kind: TopologyKind,
    offset: nat,
    relation: Seq<u8>,
)
    requires
        relation.len() == 4,
        offset + 4 <= data.len(),
    ensures
        parse_records(data, kind, offset) == parse_records(
            data.subrange(0, offset as int) + relation + data.subrange(
                offset as int + 4,
                data.len() as int,
            ),
            kind,
            offset,
        ),
{
    let o = offset as int;
    let n = data.len() as int;
    let other = data.subrange(0, o) + relation + data.subrange(o + 4, n);
    assert(other.len() == data.len());
    assert forall|i: int| o + 4 <= i < n implies other[i] == data[i] by {}
    if data.len() - offset >= 8 {
        assert(data.subrange(o + 4, o + 8) =~= other.subrange(o + 4, o + 8));
        let size = spec_u32_from_le_bytes(data.subrange(o + 4, o + 8)) as nat;
        if size >= 8 && size <= data.len() - offset {
            let r1 = data.subrange(o, o + size);
            let r2 = other.subrange(o, o + size);
            assert(r1.subrange(4, r1.len() as int) =~= r2.subrange(4, r2.len() as int));
            lemma_record_ignores_relation(r1, r2, kind);
            if offset + size <= data.len() {
                assert(data.subrange(o + size, n) =~= other.subrange(o + size, n));
            }
            lemma_parse_reads_suffix(data, other, kind, offset + size);
        }
    }
}

/// Decodes a processor-topology report of one relation (cores or caches).
pub fn parse_topology_records(data: &[u8], kind: TopologyKind) -> (result: Result<
    Vec<CpuTopology>,
    TopologyError,
>)
    ensures
        match result {
            Ok(entries) => parse_records(data@, kind, 0) == Some(entries@),
            Err(_) => parse_records(data@, kind, 0) is None,
        },
{
    let n = data.len();
    let count_at: usize = match kind {
        TopologyKind::Core => 30,
        TopologyKind::Cache => 38,
    };
    let masks_at: usize = count_at + 2;
    let mut result: Vec<CpuTopology> = Vec::new();
    let mut offset: usize = 0;
    while offset < n
        invariant
            n == data@.len(),
            offset <= n,
            count_at == count_offset(kind),
            masks_at == masks_offset(kind),
            parse_records(data@, kind, 0) == match parse_records(data@, kind, offset as nat) {
                Some(rest) => Some(result@ + rest),
                None => None::<Seq<CpuTopology>>,
            },
        decreases n - offset,
    {
        if n - offset < 8 {
            return Err(TopologyError::InvalidRecord);
        }
        let size = u32_from_le_bytes(&data[offset + 4..offset + 8]) as usize;
        if size < 8 || size > n - offset {
            return Err(TopologyError::InvalidRecord);
        }
        let ghost record = data@.subrange(offset as int, offset + size);
        if size < masks_at {
            return Err(TopologyError::InvalidRecord);
        }
        assert(data@.subrange(offset + count_at, offset + count_at + 2) == record.subrange(
            count_at as int,
            count_at + 2,
        ));
        let count = u16_from_le_bytes(&data[offset + count_at..offset + count_at + 2]) as usize;
        if count == 0 || masks_at + count * 16 > size {
            return Err(TopologyError::InvalidRecord);
        }
        assert(record_ok(record, kind));
        let ghost before = result@;
        let mut index: usize = 0;
        while index < count
            invariant
                n == data@.len(),
                offset + size <= n,
                record == data@.subrange(offset as int, offset + size),
                masks_at == masks_offset(kind),
                count == record_mask_count(record, kind),
                masks_at + count * 16 <= size,
                index <= count,
                result@ == before + record_entries(record, kind).take(index as int),
            decreases count - index,
        {
            let start = masks_at + index * 16;
            assert(data@.subrange(offset + start, offset + start + 8) == record.subrange(
                start as int,
                start + 8,
            ));
            assert(data@.subrange(offset + start + 8, offset + start + 10) == record.subrange(
                start + 8,
                start + 10,
            ));
            let mask = u64_from_le_bytes(&data[offset + start..offset + start + 8]) as usize;
            let group = u16_from_le_bytes(&data[offset + start + 8..offset + start + 10]);
            let cache_level = match kind {
                TopologyKind::Core => None,
                TopologyKind::Cache => Some(data[offset + 8]),
            };
            result.push(CpuTopology { kind, group, mask, cache_level });
            assert(record_entries(record, kind).take(index + 1) =~= record_entries(
                record,
                kind,
            ).take(index as int).push(record_entry(record, kind, index as int)));
            index = index + 1;
        }
        assert(record_entries(record, kind).take(count as int) =~= record_entries(record, kind));
        assert(before + record_entries(record, kind) + parse_records(
            data@,
            kind,
            (offset + size) as nat,
        ).unwrap_or(Seq::empty()) =~= before + (record_entries(record, kind) + parse_records(
            data@,
            kind,
            (offset + size) as nat,
        ).unwrap_or(Seq::empty())));
        offset = offset + size;
    }
    assert(result@ + Seq::<CpuTopology>::empty() =~= result@);
    Ok(result)
}

/// The lowest set bit of `m` (zero for zero).
pub open spec fn lowest_bit(m: nat) -> nat
    decreases m,
{
    if m == 0 {
        0
    } else if m % 2 == 1 {
        1
    } else {
        2 * lowest_bit(m / 2)
    }
}

proof fn lemma_lowest_bit_double(bit: nat, rest: nat)
    requires
        is_power_of_two_spec(bit),
        rest > 0,
    ensures
        lowest_bit(bit * rest) == bit * lowest_bit(rest),
    decreases bit,
{
    if bit == 1 {
        assert(bit * rest == rest && bit * lowest_bit(rest) == lowest_bit(rest)) by (nonlinear_arith)
            requires
                bit == 1,
        ;
    } else {
        assert(bit % 2 == 0);
        let half = bit / 2;
        assert(bit * rest == 2 * (half * rest)) by (nonlinear_arith)
            requires
                bit == 2 * half,
        ;
        assert(half >= 1);
        assert(half * rest > 0) by (nonlinear_arith)
            requires
                half >= 1,
                rest > 0,
        ;
        lemma_lowest_bit_double(half, rest);
        assert((2 * (half * rest)) % 2 == 0);
        assert((2 * (half * rest)) / 2 == half * rest);
        assert(lowest_bit(2 * (half * rest)) == 2 * lowest_bit(half * rest));
        assert(bit * lowest_bit(rest) == 2 * (half * lowest_bit(rest))) by (nonlinear_arith)
            requires
                bit == 2 * half,
        ;
    }
}

/// `bit` is the lowest set bit of `mask`: a power of two whose multiple `mask` is,
/// an odd number of times.
pub open spec fn is_lowest_bit(mask: usize, bit: usize) -> bool {
    &&& is_power_of_two_spec(bit as nat)
    &&& mask % bit == 0
    &&& (mask / bit) % 2 == 1
}

/// The mask of the lowest logical processor a core (or cache) mask covers.
pub fn first_logical_processor_mask(core_mask: usize) -> (first: Option<usize>)
    ensures
        core_mask == 0 ==> first is None,
        core_mask != 0 ==> (first matches Some(bit) && is_lowest_bit(core_mask, bit)),
        first == if core_mask == 0 {
            None::<usize>
        } else {
            Some(lowest_bit(core_mask as nat) as usize)
        },
{
    if core_mask == 0 {
        return None;
    }
    let mut rest = core_mask;
    let mut bit: usize = 1;
    while rest % 2 == 0
        invariant
            rest > 0,
            bit > 0,
            bit * rest == core_mask,
            is_power_of_two_spec(bit as nat),
        decreases rest,
    {
        assert(bit * 2 <= bit * rest) by (nonlinear_arith)
            requires
                rest >= 2,
                bit > 0,
        ;
        proof {
            assert(is_power_of_two_spec((bit * 2) as nat) == is_power_of_two_spec(bit as nat)) by {
                assert((bit * 2) as nat / 2 == bit as nat);
            }
        }
        assert((bit * 2) * (rest / 2) == bit * rest) by (nonlinear_arith)
            requires
                rest % 2 == 0,
        ;
        bit = bit * 2;
        rest = rest / 2;
    }
    proof {
        lemma_lowest_bit_double(bit as nat, rest as nat);
        assert(lowest_bit(rest as nat) == 1);
        assert(bit * 1 == bit);
    }
    assert(core_mask % bit == 0 && core_mask / bit == rest) by (nonlinear_arith)
        requires
            bit * rest == core_mask,
            bit > 0,
    ;
    Some(bit)
}

/// An environment setting as the process sees it.
pub enum EnvValue {
    Unset,
    NotUnicode,
    Text(String),
}

/// The three settings that ask for controlled placement.
pub struct AffinitySettings {
    /// `IPC_BENCH_STABLE_AFFINITY`
    pub stable_affinity: EnvValue,
    /// `IPC_BENCH_CPU_PAIR`
    pub cpu_pair: EnvValue,
    /// `IPC_BENCH_TOPOLOGY`
    pub topology: EnvValue,
}

/// One logical processor for the parent and another for its worker.
#[derive(Clone, Copy, Debug, PartialEq, Eq, Structural)]
pub struct StableAffinityPair {
    pub parent_mask: usize,
    pub child_mask: usize,
}

/// Why controlled placement cannot be applied.
#[derive(Clone, Copy, Debug, PartialEq, Eq, Structural)]
pub enum AffinityError {
    /// Controlled placement supports processor group 0 only.
    MultipleGroups,
    /// The requested processor pair or topology is not available.
    Unavailable,
}

pub open spec fn env_text(value: EnvValue) -> Option<Seq<char>> {
    match value {
        EnvValue::Text(s) => Some(s@),
        _ => None,
    }
}

/// Words that leave stable placement off.
pub open spec fn is_off_word(w: Seq<char>) -> bool {
    w == ""@ || w == "0"@ || w == "false"@ || w == "no"@ || w == "off"@
}

/// Stable placement is on when its setting is text that, trimmed and lower-cased,
/// is not one of the off words.
pub open spec fn stable_affinity_enabled_spec(value: EnvValue) -> bool {
    match value {
        EnvValue::Text(s) => !is_off_word(ascii_lower_seq(trim_spec(s@))),
        _ => false,
    }
}

/// Placement is asked for unless the topology setting is `unpinned` with no explicit
/// pair, or no setting asks for it at all.
pub open spec fn affinity_requested_spec(settings: AffinitySettings) -> bool {
    let unpinned = env_text(settings.topology) == Some("unpinned"@) && settings.cpu_pair is Unset;
    let untouched = !stable_affinity_enabled_spec(settings.stable_affinity)
        && settings.cpu_pair is Unset && settings.topology is Unset;
    !unpinned && !untouched
}

/// The masks of the core entries, in report order.
pub open spec fn core_masks(t: Seq<CpuTopology>) -> Seq<usize>
    decreases t.len(),
{
    if t.len() == 0 {
        Seq::empty()
    } else if t.last().kind == TopologyKind::Core {
        core_masks(t.drop_last()).push(t.last().mask)
    } else {
        core_masks(t.drop_last())
    }
}

/// The highest cache level any entry reports.
pub open spec fn max_cache_level(t: Seq<CpuTopology>) -> Option<u8>
    decreases t.len(),
{
    if t.len() == 0 {
        None
    } else {
        match (max_cache_level(t.drop_last()), t.last().cache_level) {
            (None, level) => level,
            (Some(a), None) => Some(a),
            (Some(a), Some(b)) => Some(
                if a >= b {
                    a
                } else {
                    b
                },
            ),
        }
    }
}

/// The entries at the given cache level, in report order.
pub open spec fn caches_at(t: Seq<CpuTopology>, level: u8) -> Seq<CpuTopology>
    decreases t.len(),
{
    if t.len() == 0 {
        Seq::empty()
    } else if t.last().cache_level == Some(level) {
        caches_at(t.drop_last(), level).push(t.last())
    } else {
        caches_at(t.drop_last(), level)
    }
}

/// A mask covers at least two logical processors.
pub open spec fn has_two_bits(m: usize) -> bool {
    m != 0 && m - lowest_bit(m as nat) != 0
}

/// The first core covering two or more logical processors.
pub open spec fn first_smt_core(cores: Seq<usize>) -> Option<usize>
    decreases cores.len(),
{
    if cores.len() == 0 {
        None
    } else if has_two_bits(cores[0]) {
        Some(cores[0])
    } else {
        first_smt_core(cores.drop_first())
    }
}

/// The parts of the cores that lie in a cache, leaving out cores outside it.
pub open spec fn sharing(cores: Seq<usize>, cache_mask: usize) -> Seq<usize>
    decreases cores.len(),
{
    if cores.len() == 0 {
        Seq::empty()
    } else if cores.last() & cache_mask != 0 {
        sharing(cores.drop_last(), cache_mask).push(cores.last() & cache_mask)
    } else {
        sharing(cores.drop_last(), cache_mask)
    }
}

/// Two cores sharing the first cache that two cores share.
pub open spec fn separate_core_pick(cores: Seq<usize>, caches: Seq<CpuTopology>) -> Option<
    (usize, usize),
>
    decreases caches.len(),
{
    if caches.len() == 0 {
        None
    } else {
        let shared = sharing(cores, caches[0].mask);
        if shared.len() >= 2 {
            Some((lowest_bit(shared[0] as nat) as usize, lowest_bit(shared[1] as nat) as usize))
        } else {
            separate_core_pick(cores, caches.drop_first())
        }
    }
}

/// The mask of the first cache disjoint from `first`.
pub open spec fn first_disjoint(caches: Seq<CpuTopology>, first: usize) -> Option<usize>
    decreases caches.len(),
{
    if caches.len() == 0 {
        None
    } else if caches[0].mask & first == 0 {
        Some(caches[0].mask)
    } else {
        first_disjoint(caches.drop_first(), first)
    }
}

pub open spec fn parse_u32_spec(s: Seq<char>) -> Option<u32> {
    match parse_usize_spec(s) {
        Some(n) => if n <= u32::MAX {
            Some(n as u32)
        } else {
            None
        },
        None => None,
    }
}

/// Logical processor `bit` lies in `mask`.
pub open spec fn has_bit(mask: usize, bit: u32) -> bool {
    (mask >> bit) & 1 == 1
}

pub open spec fn covered(cores: Seq<usize>, bit: u32) -> bool {
    exists|i: int| 0 <= i < cores.len() && has_bit(#[trigger] cores[i], bit)
}

/// An explicit pair `parent,child` of distinct logical processor numbers, each within
/// `usize` and each covered by some core.
pub open spec fn cpu_pair_spec(value: Seq<char>, cores: Seq<usize>) -> Option<(usize, usize)> {
    match two_fields(value, ',') {
        Some((a, b)) => match (parse_u32_spec(a), parse_u32_spec(b)) {
            (Some(x), Some(y)) => if x == y || x >= usize::BITS || y >= usize::BITS {
                None
            } else if covered(cores, x) && covered(cores, y) {
                Some((1usize << x, 1usize << y))
            } else {
                None
            },
            _ => None,
        },
        None => None,
    }
}

/// The topology mode asked for: the setting's text, or `separate-core`.
pub open spec fn topology_mode(settings: AffinitySettings) -> Seq<char> {
    match settings.topology {
        EnvValue::Text(s) => s@,
        _ => "separate-core"@,
    }
}

pub open spec fn pair_of(p: usize, c: usize) -> StableAffinityPair {
    StableAffinityPair { parent_mask: p, child_mask: c }
}

/// The placement that the settings ask for on a host with the given topology.
pub open spec fn select_spec(settings: AffinitySettings, t: Seq<CpuTopology>) -> Result<
    Option<StableAffinityPair>,
    AffinityError,
> {
    if exists|i: int| 0 <= i < t.len() && #[trigger] t[i].group != 0 {
        Err(AffinityError::MultipleGroups)
    } else {
        let cores = core_masks(t);
        match settings.cpu_pair {
            EnvValue::Text(v) => match cpu_pair_spec(v@, cores) {
                Some((p, c)) => Ok(Some(pair_of(p, c))),
                None => Err(AffinityError::Unavailable),
            },
            _ => {
                let mode = topology_mode(settings);
                if mode == "unpinned"@ {
                    Ok(None)
                } else if mode == "smt"@ {
                    match first_smt_core(cores) {
                        Some(core) => {
                            let first = lowest_bit(core as nat);
                            Ok(
                                Some(
                                    pair_of(
                                        first as usize,
                                        lowest_bit((core - first) as nat) as usize,
                                    ),
                                ),
                            )
                        },
                        None => Err(AffinityError::Unavailable),
                    }
                } else if mode == "separate-cache"@ {
                    match max_cache_level(t) {
                        None => Err(AffinityError::Unavailable),
                        Some(level) => {
                            let caches = caches_at(t, level);
                            if caches.len() == 0 {
                                Err(AffinityError::Unavailable)
                            } else {
                                let first = caches[0].mask;
                                match first_disjoint(caches, first) {
                                    Some(second) => if first == 0 || second == 0 {
                                        Err(AffinityError::Unavailable)
                                    } else {
                                        Ok(
                                            Some(
                                                pair_of(
                                                    lowest_bit(first as nat) as usize,
                                                    lowest_bit(second as nat) as usize,
                                                ),
                                            ),
                                        )
                                    },
                                    None => Err(AffinityError::Unavailable),
                                }
                            }
                        },
                    }
                } else if mode == "separate-core"@ {
                    match max_cache_level(t) {
                        None => Err(AffinityError::Unavailable),
                        Some(level) => match separate_core_pick(cores, caches_at(t, level)) {
                            Some((p, c)) => Ok(Some(pair_of(p, c))),
                            None => Err(AffinityError::Unavailable),
                        },
                    }
                } else {
                    Err(AffinityError::Unavailable)
                }
            },
        }
    }
}

/// Whether the stable-placement setting switches placement on.
pub fn stable_affinity_enabled(value: &EnvValue) -> (enabled: bool)
    ensures
        enabled == stable_affinity_enabled_spec(*value),
{
    match value {
        EnvValue::Text(s) => {
            let t = s.as_str();
            !(trimmed_lower_equals(t, "") || trimmed_lower_equals(t, "0") || trimmed_lower_equals(
                t,
                "false",
            ) || trimmed_lower_equals(t, "no") || trimmed_lower_equals(t, "off"))
        },
        _ => false,
    }
}

fn text_equals(value: &EnvValue, word: &str) -> (equal: bool)
    ensures
        equal == (env_text(*value) == Some(word@)),
{
    match value {
        EnvValue::Text(s) => str_eq(s.as_str(), word),
        _ => false,
    }
}

/// Whether the settings ask for controlled placement at all; only then is the
/// processor topology needed.
pub fn affinity_requested(settings: &AffinitySettings) -> (requested: bool)
    ensures
        requested == affinity_requested_spec(*settings),
{
    let pair_unset = match &settings.cpu_pair {
        EnvValue::Unset => true,
        _ => false,
    };
    let topology_unset = match &settings.topology {
        EnvValue::Unset => true,
        _ => false,
    };
    if text_equals(&settings.topology, "unpinned") && pair_unset {
        return false;
    }
    if !stable_affinity_enabled(&settings.stable_affinity) && pair_unset && topology_unset {
        return false;
    }
    true
}

fn collect_core_masks(t: &Vec<CpuTopology>) -> (cores: Vec<usize>)
    ensures
        cores@ == core_masks(t@),
{
    let mut cores: Vec<usize> = Vec::new();
    let mut i: usize = 0;
    while i < t.len()
        invariant
            i <= t@.len(),
            cores@ == core_masks(t@.take(i as int)),
        decreases t@.len() - i,
    {
        assert(t@.take(i + 1).drop_last() =~= t@.take(i as int));
        if t[i].kind == TopologyKind::Core {
            cores.push(t[i].mask);
        }
        i = i + 1;
    }
    assert(t@.take(t@.len() as int) =~= t@);
    cores
}

fn find_max_cache_level(t: &Vec<CpuTopology>) -> (level: Option<u8>)
    ensures
        level == max_cache_level(t@),
{
    let mut level: Option<u8> = None;
    let mut i: usize = 0;
    while i < t.len()
        invariant
            i <= t@.len(),
            level == max_cache_level(t@.take(i as int)),
        decreases t@.len() - i,
    {
        assert(t@.take(i + 1).drop_last() =~= t@.take(i as int));
        level = match (level, t[i].cache_level) {
            (None, l) => l,
            (Some(a), None) => Some(a),
            (Some(a), Some(b)) => Some(
                if a >= b {
                    a
                } else {
                    b
                },
            ),
        };
        i = i + 1;
    }
    assert(t@.take(t@.len() as int) =~= t@);
    level
}

fn collect_caches_at(t: &Vec<CpuTopology>, level: u8) -> (caches: Vec<CpuTopology>)
    ensures
        caches@ == caches_at(t@, level),
{
    let mut caches: Vec<CpuTopology> = Vec::new();
    let mut i: usize = 0;
    while i < t.len()
        invariant
            i <= t@.len(),
            caches@ == caches_at(t@.take(i as int), level),
        decreases t@.len() - i,
    {
        assert(t@.take(i + 1).drop_last() =~= t@.take(i as int));
        if t[i].cache_level == Some(level) {
            caches.push(t[i]);
        }
        i = i + 1;
    }
    assert(t@.take(t@.len() as int) =~= t@);
    caches
}

fn lowest_bit_of(mask: usize) -> (bit: usize)
    requires
        mask != 0,
    ensures
        bit == lowest_bit(mask as nat),
        0 < bit <= mask,
{
    proof {
        lemma_lowest_bit_bounds(mask as nat);
    }
    match first_logical_processor_mask(mask) {
        Some(bit) => bit,
        None => 0,
    }
}

proof fn lemma_lowest_bit_bounds(m: nat)
    requires
        m > 0,
    ensures
        0 < lowest_bit(m) <= m,
    decreases m,
{
    if m % 2 == 0 {
        lemma_lowest_bit_bounds(m / 2);
    }
}

fn find_smt_core(cores: &Vec<usize>) -> (core: Option<usize>)
    ensures
        core == first_smt_core(cores@),
{
    let mut i: usize = 0;
    assert(cores@.skip(0) =~= cores@);
    while i < cores.len()
        invariant
            i <= cores@.len(),
            first_smt_core(cores@) == first_smt_core(cores@.skip(i as int)),
        decreases cores@.len() - i,
    {
        let c = cores[i];
        assert(cores@.skip(i as int)[0] == c);
        assert(cores@.skip(i as int).drop_first() =~= cores@.skip(i + 1));
        if c != 0 && c - lowest_bit_of(c) != 0 {
            return Some(c);
        }
        i = i + 1;
    }
    None
}

fn collect_sharing(cores: &Vec<usize>, cache_mask: usize) -> (shared: Vec<usize>)
    ensures
        shared@ == sharing(cores@, cache_mask),
{
    let mut shared: Vec<usize> = Vec::new();
    let mut i: usize = 0;
    while i < cores.len()
        invariant
            i <= cores@.len(),
            shared@ == sharing(cores@.take(i as int), cache_mask),
        decreases cores@.len() - i,
    {
        assert(cores@.take(i + 1).drop_last() =~= cores@.take(i as int));
        let part = cores[i] & cache_mask;
        if part != 0 {
            shared.push(part);
        }
        i = i + 1;
    }
    assert(cores@.take(cores@.len() as int) =~= cores@);
    shared
}

fn find_separate_core_pair(cores: &Vec<usize>, caches: &Vec<CpuTopology>) -> (pair: Option<
    (usize, usize),
>)
    ensures
        pair == separate_core_pick(cores@, caches@),
{
    let mut i: usize = 0;
    assert(caches@.skip(0) =~= caches@);
    while i < caches.len()
        invariant
            i <= caches@.len(),
            separate_core_pick(cores@, caches@) == separate_core_pick(
                cores@,
                caches@.skip(i as int),
            ),
        decreases caches@.len() - i,
    {
        assert(caches@.skip(i as int)[0] == caches@[i as int]);
        assert(caches@.skip(i as int).drop_first() =~= caches@.skip(i + 1));
        let shared = collect_sharing(cores, caches[i].mask);
        if shared.len() >= 2 {
            proof {
                lemma_sharing_nonzero(cores@, caches@[i as int].mask);
            }
            return Some((lowest_bit_of(shared[0]), lowest_bit_of(shared[1])));
        }
        i = i + 1;
    }
    None
}

proof fn lemma_sharing_nonzero(cores: Seq<usize>, cache_mask: usize)
    ensures
        forall|j: int| 0 <= j < sharing(cores, cache_mask).len() ==> #[trigger] sharing(
            cores,
            cache_mask,
        )[j] != 0,
    decreases cores.len(),
{
    if cores.len() > 0 {
        lemma_sharing_nonzero(cores.drop_last(), cache_mask);
        let prev = sharing(cores.drop_last(), cache_mask);
        let cur = sharing(cores, cache_mask);
        assert forall|j: int| 0 <= j < cur.len() implies #[trigger] cur[j] != 0 by {
            if j < prev.len() {
                assert(cur[j] == prev[j]);
            }
        }
    }
}

proof fn lemma_smt_core_has_two_bits(cores: Seq<usize>)
    ensures
        first_smt_core(cores) matches Some(c) ==> has_two_bits(c),
    decreases cores.len(),
{
    if cores.len() > 0 && !has_two_bits(cores[0]) {
        lemma_smt_core_has_two_bits(cores.drop_first());
    }
}

fn find_first_disjoint(caches: &Vec<CpuTopology>, first: usize) -> (mask: Option<usize>)
    ensures
        mask == first_disjoint(caches@, first),
{
    let mut i: usize = 0;
    assert(caches@.skip(0) =~= caches@);
    while i < caches.len()
        invariant
            i <= caches@.len(),
            first_disjoint(caches@, first) == first_disjoint(caches@.skip(i as int), first),
        decreases caches@.len() - i,
    {
        assert(caches@.skip(i as int)[0] == caches@[i as int]);
        assert(caches@.skip(i as int).drop_first() =~= caches@.skip(i + 1));
        if caches[i].mask & first == 0 {
            return Some(caches[i].mask);
        }
        i = i + 1;
    }
    None
}

fn parse_u32_field(s: &str) -> (value: Option<u32>)
    ensures
        value == parse_u32_spec(s@),
{
    match parse_usize(s) {
        Some(n) => if n <= u32::MAX as usize {
            Some(n as u32)
        } else {
            None
        },
        None => None,
    }
}

fn is_covered(cores: &Vec<usize>, bit: u32) -> (r: bool)
    requires
        bit < usize::BITS,
    ensures
        r == covered(cores@, bit),
{
    let mut i: usize = 0;
    while i < cores.len()
        invariant
            i <= cores@.len(),
            bit < usize::BITS,
            forall|j: int| 0 <= j < i ==> !has_bit(#[trigger] cores@[j], bit),
        decreases cores@.len() - i,
    {
        if (cores[i] >> bit) & 1 == 1 {
            assert(has_bit(cores@[i as int], bit));
            return true;
        }
        i = i + 1;
    }
    false
}

fn explicit_pair(value: &str, cores: &Vec<usize>) -> (pair: Option<(usize, usize)>)
    ensures
        pair == cpu_pair_spec(value@, cores@),
{
    let (a, b) = match split_two_fields(value, ',') {
        Some(fields) => fields,
        None => {
            return None;
        },
    };
    let (x, y) = match (parse_u32_field(a), parse_u32_field(b)) {
        (Some(x), Some(y)) => (x, y),
        _ => {
            return None;
        },
    };
    if x == y || x >= usize::BITS || y >= usize::BITS {
        return None;
    }
    if is_covered(cores, x) && is_covered(cores, y) {
        Some((1usize << x, 1usize << y))
    } else {
        None
    }
}

/// The parent's and the worker's processor masks, or `None` when placement is left
/// to the operating system.
pub fn stable_affinity_pair(settings: &AffinitySettings, topology: &Vec<CpuTopology>) -> (result:
    Result<Option<StableAffinityPair>, AffinityError>)
    ensures
        result == if affinity_requested_spec(*settings) {
            select_spec(*settings, topology@)
        } else {
            Ok(None)
        },
{
    if !affinity_requested(settings) {
        return Ok(None);
    }
    let mut i: usize = 0;
    while i < topology.len()
        invariant
            i <= topology@.len(),
            affinity_requested_spec(*settings),
            forall|j: int| 0 <= j < i ==> #[trigger] topology@[j].group == 0,
        decreases topology@.len() - i,
    {
        if topology[i].group != 0 {
            return Err(AffinityError::MultipleGroups);
        }
        i = i + 1;
    }
    let cores = collect_core_masks(topology);
    if let EnvValue::Text(v) = &settings.cpu_pair {
        return match explicit_pair(v.as_str(), &cores) {
            Some((p, c)) => Ok(Some(StableAffinityPair { parent_mask: p, child_mask: c })),
            None => Err(AffinityError::Unavailable),
        };
    }
    let mode: &str = match &settings.topology {
        EnvValue::Text(s) => s.as_str(),
        _ => "separate-core",
    };
    if str_eq(mode, "unpinned") {
        Ok(None)
    } else if str_eq(mode, "smt") {
        let found = find_smt_core(&cores);
        proof {
            lemma_smt_core_has_two_bits(cores@);
        }
        match found {
            Some(core) => {
                let first = lowest_bit_of(core);
                Ok(
                    Some(
                        StableAffinityPair {
                            parent_mask: first,
                            child_mask: lowest_bit_of(core - first),
                        },
                    ),
                )
            },
            None => Err(AffinityError::Unavailable),
        }
    } else if str_eq(mode, "separate-cache") {
        match find_max_cache_level(topology) {
            None => Err(AffinityError::Unavailable),
            Some(level) => {
                let caches = collect_caches_at(topology, level);
                if caches.len() == 0 {
                    return Err(AffinityError::Unavailable);
                }
                let first = caches[0].mask;
                match find_first_disjoint(&caches, first) {
                    Some(second) => if first == 0 || second == 0 {
                        Err(AffinityError::Unavailable)
                    } else {
                        Ok(
                            Some(
                                StableAffinityPair {
                                    parent_mask: lowest_bit_of(first),
                                    child_mask: lowest_bit_of(second),
                                },
                            ),
                        )
                    },
                    None => Err(AffinityError::Unavailable),
                }
            },
        }
    } else if str_eq(mode, "separate-core") {
        match find_max_cache_level(topology) {
            None => Err(AffinityError::Unavailable),
            Some(level) => {
                let caches = collect_caches_at(topology, level);
                match find_separate_core_pair(&cores, &caches) {
                    Some((p, c)) => Ok(Some(StableAffinityPair { parent_mask: p, child_mask: c })),
                    None => Err(AffinityError::Unavailable),
                }
            },
        }
    } else {
        Err(AffinityError::Unavailable)
    }
}


proof fn lemma_pow2_is_power_of_two(k: nat)
    ensures
        is_power_of_two_spec(pow2(k)),
    decreases k,
{
    if k == 0 {
        lemma2_to64();
    } else {
        lemma_pow2_is_power_of_two((k - 1) as nat);
        lemma_pow2_unfold(k);
        lemma_pow2_pos((k - 1) as nat);
        let p = pow2((k - 1) as nat);
        assert((2 * p) / 2 == p);
    }
}

proof fn lemma_pow2_exponent(n: nat) -> (k: nat)
    requires
        is_power_of_two_spec(n),
    ensures
        pow2(k) == n,
    decreases n,
{
    if n == 1 {
        lemma2_to64();
        0
    } else {
        let k = lemma_pow2_exponent(n / 2);
        lemma_pow2_unfold(k + 1);
        k + 1
    }
}

proof fn lemma_lowest_bit_power_of_two(m: nat)
    requires
        m > 0,
    ensures
        is_power_of_two_spec(lowest_bit(m)),
    decreases m,
{
    if m % 2 == 0 {
        lemma_lowest_bit_power_of_two(m / 2);
        lemma_lowest_bit_bounds(m / 2);
        let p = lowest_bit(m / 2);
        assert((2 * p) / 2 == p);
    }
}

/// The lowest set bit of `m` divides it an odd number of times.
proof fn lemma_lowest_bit_divides(m: nat)
    requires
        m > 0,
    ensures
        m % lowest_bit(m) == 0,
        (m / lowest_bit(m)) % 2 == 1,
    decreases m,
{
    if m % 2 == 0 {
        let h = m / 2;
        lemma_lowest_bit_divides(h);
        lemma_lowest_bit_bounds(h);
        let l = lowest_bit(h);
        let r = h / l;
        assert(h == l * r) by (nonlinear_arith)
            requires
                h % l == 0,
                l > 0,
                r == h / l,
        ;
        assert(m == (2 * l) * r) by (nonlinear_arith)
            requires
                h == l * r,
                m == 2 * h,
        ;
        assert(m % (2 * l) == 0 && m / (2 * l) == r) by (nonlinear_arith)
            requires
                m == (2 * l) * r,
                l > 0,
        ;
    }
}

/// `1 << bit` is the power of two `2^bit`.
proof fn lemma_bit_mask_is_pow2(bit: u32)
    requires
        bit < usize::BITS,
    ensures
        (1usize << bit) as nat == pow2(bit as nat),
{
    lemma_usize_pow2_no_overflow(bit as nat);
    lemma_usize_shl_is_mul(1, bit as usize);
    assert((1usize << bit) == (1usize << (bit as usize))) by (bit_vector)
        requires
            bit < usize::BITS,
    ;
}

/// No two masks of the list share a logical processor.
pub open spec fn masks_disjoint(masks: Seq<usize>) -> bool {
    forall|i: int, j: int| 0 <= i < j < masks.len() ==> #[trigger] masks[i] & #[trigger] masks[j] == 0
}

/// Two disjoint nonzero masks have different lowest logical processors.
proof fn lemma_disjoint_lowest_bits(x: usize, y: usize)
    requires
        x != 0,
        y != 0,
        x & y == 0,
    ensures
        lowest_bit(x as nat) != lowest_bit(y as nat),
{
    let b = lowest_bit(x as nat);
    if b == lowest_bit(y as nat) {
        lemma_lowest_bit_divides(x as nat);
        lemma_lowest_bit_divides(y as nat);
        lemma_lowest_bit_bounds(x as nat);
        lemma_lowest_bit_power_of_two(x as nat);
        let k = lemma_pow2_exponent(b);
        lemma2_to64();
        if k >= usize::BITS {
            if k > usize::BITS {
                lemma_pow2_strictly_increases(usize::BITS as nat, k);
            }
            assert(false);
        }
        let s = k as usize;
        lemma_usize_shr_is_div(x, s);
        lemma_usize_shr_is_div(y, s);
        assert((x >> s) % 2 == 1 && (y >> s) % 2 == 1);
        assert(((x >> s) % 2 == 1 && (y >> s) % 2 == 1) ==> x & y != 0) by (bit_vector);
    }
}

proof fn lemma_sharing_within(cores: Seq<usize>, cache_mask: usize, other: usize)
    requires
        forall|i: int| 0 <= i < cores.len() ==> #[trigger] cores[i] & other == 0,
    ensures
        forall|a: int|
            0 <= a < sharing(cores, cache_mask).len() ==> #[trigger] sharing(cores, cache_mask)[a]
                & other == 0,
    decreases cores.len(),
{
    if cores.len() > 0 {
        let init = cores.drop_last();
        assert forall|i: int| 0 <= i < init.len() implies #[trigger] init[i] & other == 0 by {
            assert(init[i] == cores[i]);
        }
        lemma_sharing_within(init, cache_mask, other);
        let last = cores.last();
        assert(last & other == 0);
        let prev = sharing(init, cache_mask);
        let cur = sharing(cores, cache_mask);
        assert((last & other) == 0 ==> ((last & cache_mask) & other) == 0) by (bit_vector);
        assert forall|a: int| 0 <= a < cur.len() implies #[trigger] cur[a] & other == 0 by {
            if a < prev.len() {
                assert(cur[a] == prev[a]);
            }
        }
    }
}

/// The parts of disjoint cores that lie in a cache are disjoint.
proof fn lemma_sharing_disjoint(cores: Seq<usize>, cache_mask: usize)
    requires
        masks_disjoint(cores),
    ensures
        masks_disjoint(sharing(cores, cache_mask)),
    decreases cores.len(),
{
    if cores.len() > 0 {
        let init = cores.drop_last();
        assert forall|i: int, j: int| 0 <= i < j < init.len() implies #[trigger] init[i]
            & #[trigger] init[j] == 0 by {
            assert(init[i] == cores[i] && init[j] == cores[j]);
        }
        lemma_sharing_disjoint(init, cache_mask);
        let last = cores.last();
        let prev = sharing(init, cache_mask);
        let cur = sharing(cores, cache_mask);
        if last & cache_mask != 0 {
            let e = last & cache_mask;
            assert forall|i: int| 0 <= i < init.len() implies #[trigger] init[i] & e == 0 by {
                let a = init[i];
                assert(a == cores[i]);
                assert(cores[i] & cores[cores.len() - 1] == 0);
                assert((a & last) == 0 ==> (a & (last & cache_mask)) == 0) by (bit_vector);
            }
            lemma_sharing_within(init, cache_mask, e);
            assert forall|a: int, b: int| 0 <= a < b < cur.len() implies #[trigger] cur[a]
                & #[trigger] cur[b] == 0 by {
                assert(cur[a] == prev[a]);
                if b < prev.len() {
                    assert(cur[b] == prev[b]);
                } else {
                    assert(cur[b] == e);
                    assert(prev[a] & e == 0);
                }
            }
        } else {
            assert(cur == prev);
        }
    }
}

proof fn lemma_separate_core_pick(cores: Seq<usize>, caches: Seq<CpuTopology>)
    ensures
        separate_core_pick(cores, caches) matches Some((p, c)) ==> {
            &&& is_power_of_two_spec(p as nat)
            &&& is_power_of_two_spec(c as nat)
            &&& masks_disjoint(cores) ==> p != c
        },
    decreases caches.len(),
{
    if caches.len() > 0 {
        let shared = sharing(cores, caches[0].mask);
        if shared.len() >= 2 {
            lemma_sharing_nonzero(cores, caches[0].mask);
            let (x, y) = (shared[0], shared[1]);
            lemma_lowest_bit_bounds(x as nat);
            lemma_lowest_bit_bounds(y as nat);
            lemma_lowest_bit_power_of_two(x as nat);
            lemma_lowest_bit_power_of_two(y as nat);
            if masks_disjoint(cores) {
                lemma_sharing_disjoint(cores, caches[0].mask);
                assert(shared[0] & shared[1] == 0);
                lemma_disjoint_lowest_bits(x, y);
            }
        } else {
            lemma_separate_core_pick(cores, caches.drop_first());
        }
    }
}

/// The second processor of an SMT pair lies above the first.
proof fn lemma_smt_pair(core: usize)
    requires
        has_two_bits(core),
    ensures
        lowest_bit(core as nat) < lowest_bit((core - lowest_bit(core as nat)) as nat),
        is_power_of_two_spec(lowest_bit(core as nat)),
        is_power_of_two_spec(lowest_bit((core - lowest_bit(core as nat)) as nat)),
        lowest_bit((core - lowest_bit(core as nat)) as nat) <= core,
{
    let m = core as nat;
    let b = lowest_bit(m);
    lemma_lowest_bit_bounds(m);
    lemma_lowest_bit_divides(m);
    lemma_lowest_bit_power_of_two(m);
    let r = m / b;
    assert(m == b * r) by (nonlinear_arith)
        requires
            m % b == 0,
            b > 0,
            r == m / b,
    ;
    let rest = (m - b) as nat;
    assert(rest > 0);
    assert(r >= 2 && rest == b * ((r - 1) as nat)) by (nonlinear_arith)
        requires
            m == b * r,
            b > 0,
            rest == m - b,
            rest > 0,
    ;
    let q = (r - 1) as nat;
    assert(q % 2 == 0 && q >= 2);
    lemma_lowest_bit_double(b, q);
    lemma_lowest_bit_bounds(q / 2);
    assert(lowest_bit(q) == 2 * lowest_bit(q / 2));
    assert(b * lowest_bit(q) >= 2 * b) by (nonlinear_arith)
        requires
            lowest_bit(q) >= 2,
            b > 0,
    ;
    lemma_lowest_bit_bounds(rest);
    lemma_lowest_bit_power_of_two(rest);
}

/// A controlled placement pins each process to a single logical processor: each mask
/// it selects is a power of two.
pub proof fn lemma_placement_single_processors(
    settings: AffinitySettings,
    topology: Seq<CpuTopology>,
)
    ensures
        select_spec(settings, topology) matches Ok(Some(pair)) ==> is_power_of_two_spec(
            pair.parent_mask as nat,
        ) && is_power_of_two_spec(pair.child_mask as nat),
{
    lemma_placement_cases(settings, topology);
}

/// A controlled placement puts the parent and the worker on different logical
/// processors, provided no two cores of the topology share a logical processor.
pub proof fn lemma_placement_distinct_processors(
    settings: AffinitySettings,
    topology: Seq<CpuTopology>,
)
    requires
        masks_disjoint(core_masks(topology)),
    ensures
        select_spec(settings, topology) matches Ok(Some(pair)) ==> pair.parent_mask
            != pair.child_mask,
{
    lemma_placement_cases(settings, topology);
}

proof fn lemma_placement_cases(settings: AffinitySettings, t: Seq<CpuTopology>)
    ensures
        select_spec(settings, t) matches Ok(Some(pair)) ==> {
            &&& is_power_of_two_spec(pair.parent_mask as nat)
            &&& is_power_of_two_spec(pair.child_mask as nat)
            &&& masks_disjoint(core_masks(t)) ==> pair.parent_mask != pair.child_mask
        },
{
    let cores = core_masks(t);
    if exists|i: int| 0 <= i < t.len() && #[trigger] t[i].group != 0 {
        return;
    }
    match settings.cpu_pair {
        EnvValue::Text(v) => {
            match two_fields(v@, ',') {
                Some((a, b)) => match (parse_u32_spec(a), parse_u32_spec(b)) {
                    (Some(x), Some(y)) => {
                        if !(x == y || x >= usize::BITS || y >= usize::BITS) {
                            lemma_bit_mask_is_pow2(x);
                            lemma_bit_mask_is_pow2(y);
                            lemma_pow2_is_power_of_two(x as nat);
                            lemma_pow2_is_power_of_two(y as nat);
                            if x < y {
                                lemma_pow2_strictly_increases(x as nat, y as nat);
                            } else {
                                lemma_pow2_strictly_increases(y as nat, x as nat);
                            }
                        }
                    },
                    _ => {},
                },
                None => {},
            }
        },
        _ => {
            let mode = topology_mode(settings);
            if mode == "smt"@ {
                lemma_smt_core_has_two_bits(cores);
                if let Some(core) = first_smt_core(cores) {
                    lemma_smt_pair(core);
                    lemma_lowest_bit_bounds(core as nat);
                }
            } else if mode == "separate-cache"@ {
                if let Some(level) = max_cache_level(t) {
                    let caches = caches_at(t, level);
                    if caches.len() > 0 {
                        let first = caches[0].mask;
                        if let Some(second) = first_disjoint(caches, first) {
                            if first != 0 && second != 0 {
                                lemma_first_disjoint_is_disjoint(caches, first);
                                assert(second & first == 0 ==> first & second == 0) by (bit_vector);
                                lemma_lowest_bit_bounds(first as nat);
                                lemma_lowest_bit_bounds(second as nat);
                                lemma_lowest_bit_power_of_two(first as nat);
                                lemma_lowest_bit_power_of_two(second as nat);
                                lemma_disjoint_lowest_bits(first, second);
                            }
                        }
                    }
                }
            } else if mode == "separate-core"@ {
                if let Some(level) = max_cache_level(t) {
                    lemma_separate_core_pick(cores, caches_at(t, level));
                }
            }
        },
    }
}

/// Processor `bit` of a mask is set exactly when the mask shares a bit with `1 << bit`.
proof fn lemma_has_bit_shares(mask: usize, bit: u32)
    requires
        bit < usize::BITS,
    ensures
        has_bit(mask, bit) <==> mask & (1usize << bit) != 0,
{
    assert(((mask >> bit) & 1 == 1) <==> (mask & (1usize << bit) != 0)) by (bit_vector)
        requires
            bit < usize::BITS,
    ;
}

/// An explicit processor pair names two existing processors: when the settings' pair
/// is accepted, the parent's and the worker's masks are single processors, each of
/// which some core of the topology covers, and they differ.
pub proof fn lemma_explicit_pair_within_cores(settings: AffinitySettings, t: Seq<CpuTopology>)
    requires
        settings.cpu_pair is Text,
    ensures
        select_spec(settings, t) matches Ok(Some(pair)) ==> {
            &&& exists|i: int|
                0 <= i < core_masks(t).len() && #[trigger] core_masks(t)[i] & pair.parent_mask
                    != 0
            &&& exists|i: int|
                0 <= i < core_masks(t).len() && #[trigger] core_masks(t)[i] & pair.child_mask
                    != 0
            &&& pair.parent_mask != pair.child_mask
        },
{
    lemma_placement_cases(settings, t);
    let cores = core_masks(t);
    let v = settings.cpu_pair->Text_0;
    if let Some((x, y)) = cpu_pair_spec(v@, cores) {
        let (a, b) = two_fields(v@, ',').unwrap();
        let bx = parse_u32_spec(a).unwrap();
        let by = parse_u32_spec(b).unwrap();
        assert(x == 1usize << bx && y == 1usize << by);
        lemma_bit_mask_is_pow2(bx);
        lemma_bit_mask_is_pow2(by);
        if bx < by {
            lemma_pow2_strictly_increases(bx as nat, by as nat);
        } else {
            lemma_pow2_strictly_increases(by as nat, bx as nat);
        }
        let i = choose|i: int| 0 <= i < cores.len() && has_bit(#[trigger] cores[i], bx);
        let j = choose|j: int| 0 <= j < cores.len() && has_bit(#[trigger] cores[j], by);
        lemma_has_bit_shares(cores[i], bx);
        lemma_has_bit_shares(cores[j], by);
        assert(cores[i] & x != 0);
        assert(cores[j] & y != 0);
        if !(exists|k: int| 0 <= k < t.len() && #[trigger] t[k].group != 0) {
            let r = select_spec(settings, t);
            assert(r == Ok::<Option<StableAffinityPair>, AffinityError>(Some(pair_of(x, y))));
            assert(core_masks(t)[i] & r->Ok_0->Some_0.parent_mask != 0);
            assert(core_masks(t)[j] & r->Ok_0->Some_0.child_mask != 0);
        }
    }
}

proof fn lemma_first_disjoint_is_disjoint(caches: Seq<CpuTopology>, first: usize)
    ensures
        first_disjoint(caches, first) matches Some(m) ==> m & first == 0,
    decreases caches.len(),
{
    if caches.len() > 0 && caches[0].mask & first != 0 {
        lemma_first_disjoint_is_disjoint(caches.drop_first(), first);
    }
}

} // verus!
