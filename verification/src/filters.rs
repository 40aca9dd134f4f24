use vstd::prelude::*;

use crate::text::{parse_unsigned, spec_parse_unsigned};

verus! {

/// A whitelisted range of IPv4 addresses, bounds included.
#[derive(Debug, Clone, Copy, PartialEq, Eq, Structural)]
pub struct IPV4WLEntry {
    pub ip_start: u32,
    pub ip_end: u32,
}

/// A blocked IPv4 address, or a range of them when `ip_end` is given, with
/// the abuse code recorded for submissions coming from it.
#[derive(Debug, Clone, Copy, PartialEq, Eq, Structural)]
pub struct IPV4BLEntry {
    pub ip_start: u32,
    pub ip_end: Option<u32>,
    pub abuse_code: u16,
}

/// A range of IPv4 addresses announced by an autonomous system.
#[derive(Debug, Clone, Copy, PartialEq, Eq, Structural)]
pub struct ASNLEntry {
    pub ip_start: u32,
    pub ip_end: u32,
    pub asn: u32,
}

/// A blocked autonomous system, with the abuse code recorded for
/// submissions coming from it.
#[derive(Debug, Clone, Copy, PartialEq, Eq, Structural)]
pub struct ASNBLEntry {
    pub asn: u32,
    pub abuse_code: u16,
}

/// The sum of a sequence.
pub open spec fn sum(xs: Seq<int>) -> int
    decreases xs.len(),
{
    if xs.len() == 0 {
        0
    } else {
        sum(xs.drop_last()) + xs.last()
    }
}

proof fn lemma_sum_step(xs: Seq<int>, i: int)
    requires
        0 <= i < xs.len(),
    ensures
        sum(xs.take(i + 1)) == sum(xs.take(i)) + xs[i],
{
    assert(xs.take(i + 1).drop_last() =~= xs.take(i));
}

/// A sum of non-negative terms is at least each of its prefix sums.
proof fn lemma_sum_prefix_le(xs: Seq<int>, i: int)
    requires
        0 <= i <= xs.len(),
        forall|k: int| 0 <= k < xs.len() ==> xs[k] >= 0,
    ensures
        0 <= sum(xs.take(i)) <= sum(xs),
    decreases xs.len() - i,
{
    if i == xs.len() {
        assert(xs.take(i) =~= xs);
        lemma_sum_nonneg(xs);
    } else {
        lemma_sum_prefix_le(xs, i + 1);
        lemma_sum_step(xs, i);
        lemma_sum_nonneg(xs.take(i));
    }
}

proof fn lemma_sum_nonneg(xs: Seq<int>)
    requires
        forall|k: int| 0 <= k < xs.len() ==> xs[k] >= 0,
    ensures
        sum(xs) >= 0,
    decreases xs.len(),
{
    if xs.len() > 0 {
        lemma_sum_nonneg(xs.drop_last());
    }
}

/// The number of addresses that a whitelist entry adds to the count.
pub open spec fn wl_size(e: IPV4WLEntry) -> int {
    e.ip_end - e.ip_start
}

/// The number of addresses that a blacklist entry adds to the count: one
/// for a single address.
pub open spec fn bl_size(e: IPV4BLEntry) -> int {
    match e.ip_end {
        Some(end) => end - e.ip_start,
        None => 1,
    }
}

/// A blacklisted range ends at or after its start.
pub open spec fn bl_ordered(e: IPV4BLEntry) -> bool {
    e.ip_end matches Some(end) ==> e.ip_start <= end
}

pub open spec fn wl_sizes(s: Seq<IPV4WLEntry>) -> Seq<int> {
    s.map_values(|e: IPV4WLEntry| wl_size(e))
}

pub open spec fn bl_sizes(s: Seq<IPV4BLEntry>) -> Seq<int> {
    s.map_values(|e: IPV4BLEntry| bl_size(e))
}

/// The sizes of the ranges of autonomous system `asn`; the other ranges
/// count for nothing.
pub open spec fn asn_sizes(asn: u32, list: Seq<ASNLEntry>) -> Seq<int> {
    list.map_values(|e: ASNLEntry| if e.asn == asn { e.ip_end - e.ip_start } else { 0int })
}

/// For each blocked autonomous system, the size of its ranges.
pub open spec fn asnbl_sizes(blacklist: Seq<ASNBLEntry>, list: Seq<ASNLEntry>) -> Seq<int> {
    blacklist.map_values(|b: ASNBLEntry| sum(asn_sizes(b.asn, list)))
}

/// Every range of a blocked autonomous system has its end at or after its
/// start.
pub open spec fn asnbl_ranges_ordered(blacklist: Seq<ASNBLEntry>, list: Seq<ASNLEntry>) -> bool {
    forall|i: int, k: int|
        0 <= i < list.len() && 0 <= k < blacklist.len() && #[trigger] list[i].asn == #[trigger] blacklist[k].asn
            ==> list[i].ip_start <= list[i].ip_end
}

impl IPV4WLEntry {
    /// The number of addresses in the whitelist: the sum over its ranges of
    /// `ip_end - ip_start`.
    pub fn count(ips_vec: &[IPV4WLEntry]) -> (counter: u32)
        requires
            forall|i: int| 0 <= i < ips_vec@.len() ==> ips_vec@[i].ip_start <= ips_vec@[i].ip_end,
            sum(wl_sizes(ips_vec@)) <= u32::MAX,
        ensures
            counter == sum(wl_sizes(ips_vec@)),
    {
        let ghost sizes = wl_sizes(ips_vec@);
        let mut counter: u32 = 0;
        let mut i: usize = 0;
        proof {
            assert(sizes.take(0) =~= Seq::<int>::empty());
        }
        while i < ips_vec.len()
            invariant
                i <= ips_vec@.len(),
                sizes == wl_sizes(ips_vec@),
                sizes.len() == ips_vec@.len(),
                forall|k: int| 0 <= k < sizes.len() ==> sizes[k] >= 0,
                sum(sizes) <= u32::MAX,
                counter == sum(sizes.take(i as int)),
                forall|k: int| 0 <= k < ips_vec@.len() ==> ips_vec@[k].ip_start <= ips_vec@[k].ip_end,
            decreases ips_vec.len() - i,
        {
            proof {
                lemma_sum_step(sizes, i as int);
                lemma_sum_prefix_le(sizes, i + 1);
            }
            counter = counter + (ips_vec[i].ip_end - ips_vec[i].ip_start);
            i += 1;
        }
        proof {
            assert(sizes.take(sizes.len() as int) =~= sizes);
        }
        counter
    }
}

impl IPV4BLEntry {
    /// The number of addresses in the blacklist: the sum over its entries
    /// of `ip_end - ip_start` for a range, and of one for a single address.
    pub fn count(ips_vec: &[IPV4BLEntry]) -> (counter: u32)
        requires
            forall|i: int| 0 <= i < ips_vec@.len() ==> #[trigger] bl_ordered(ips_vec@[i]),
            sum(bl_sizes(ips_vec@)) <= u32::MAX,
        ensures
            counter == sum(bl_sizes(ips_vec@)),
    {
        let ghost sizes = bl_sizes(ips_vec@);
        let mut counter: u32 = 0;
        let mut i: usize = 0;
        proof {
            assert forall|k: int| 0 <= k < sizes.len() implies sizes[k] >= 0 by {
                assert(bl_ordered(ips_vec@[k]));
            }
            assert(sizes.take(0) =~= Seq::<int>::empty());
        }
        while i < ips_vec.len()
            invariant
                i <= ips_vec@.len(),
                sizes == bl_sizes(ips_vec@),
                sizes.len() == ips_vec@.len(),
                forall|k: int| 0 <= k < sizes.len() ==> sizes[k] >= 0,
                sum(sizes) <= u32::MAX,
                counter == sum(sizes.take(i as int)),
                forall|k: int| 0 <= k < ips_vec@.len() ==> #[trigger] bl_ordered(ips_vec@[k]),
            decreases ips_vec.len() - i,
        {
            proof {
                lemma_sum_step(sizes, i as int);
                lemma_sum_prefix_le(sizes, i + 1);
            }
            match ips_vec[i].ip_end {
                Some(ip_end) => {
                    counter = counter + (ip_end - ips_vec[i].ip_start);
                },
                None => {
                    counter = counter + 1;
                },
            }
            i += 1;
        }
        proof {
            assert(sizes.take(sizes.len() as int) =~= sizes);
        }
        counter
    }
}

impl ASNBLEntry {
    /// The number of addresses of the blocked autonomous systems: for each
    /// entry of the blacklist, the sizes `ip_end - ip_start` of the ranges
    /// of its autonomous system in `asn_list`.
    pub fn count(asn_blacklist: &[ASNBLEntry], asn_list: &[ASNLEntry]) -> (counter: u32)
        requires
            asnbl_ranges_ordered(asn_blacklist@, asn_list@),
            sum(asnbl_sizes(asn_blacklist@, asn_list@)) <= u32::MAX,
        ensures
            counter == sum(asnbl_sizes(asn_blacklist@, asn_list@)),
    {
        let ghost outer = asnbl_sizes(asn_blacklist@, asn_list@);
        proof {
            assert forall|k: int| 0 <= k < outer.len() implies outer[k] >= 0 by {
                let inner = asn_sizes(asn_blacklist@[k].asn, asn_list@);
                assert forall|m: int| 0 <= m < inner.len() implies inner[m] >= 0 by {
                    if asn_list@[m].asn == asn_blacklist@[k].asn {
                        assert(asn_list@[m].ip_start <= asn_list@[m].ip_end);
                    }
                }
                lemma_sum_nonneg(inner);
            }
            assert(outer.take(0) =~= Seq::<int>::empty());
        }
        let mut counter: u32 = 0;
        let mut i: usize = 0;
        while i < asn_blacklist.len()
            invariant
                i <= asn_blacklist@.len(),
                outer == asnbl_sizes(asn_blacklist@, asn_list@),
                outer.len() == asn_blacklist@.len(),
                forall|k: int| 0 <= k < outer.len() ==> outer[k] >= 0,
                sum(outer) <= u32::MAX,
                counter == sum(outer.take(i as int)),
                asnbl_ranges_ordered(asn_blacklist@, asn_list@),
            decreases asn_blacklist.len() - i,
        {
            let bl_asn: u32 = asn_blacklist[i].asn;
            let ghost inner = asn_sizes(bl_asn, asn_list@);
            proof {
                lemma_sum_step(outer, i as int);
                lemma_sum_prefix_le(outer, i + 1);
                assert forall|m: int| 0 <= m < inner.len() implies inner[m] >= 0 by {
                    if asn_list@[m].asn == bl_asn {
                        assert(asn_list@[m].ip_start <= asn_list@[m].ip_end);
                    }
                }
                assert(inner.take(0) =~= Seq::<int>::empty());
            }
            let ghost base = counter as int;
            let mut j: usize = 0;
            while j < asn_list.len()
                invariant
                    j <= asn_list@.len(),
                    i < asn_blacklist@.len(),
                    bl_asn == asn_blacklist@[i as int].asn,
                    inner == asn_sizes(bl_asn, asn_list@),
                    inner.len() == asn_list@.len(),
                    forall|m: int| 0 <= m < inner.len() ==> inner[m] >= 0,
                    base + sum(inner) <= u32::MAX,
                    counter == base + sum(inner.take(j as int)),
                    asnbl_ranges_ordered(asn_blacklist@, asn_list@),
                decreases asn_list.len() - j,
            {
                proof {
                    lemma_sum_step(inner, j as int);
                    lemma_sum_prefix_le(inner, j + 1);
                }
                if asn_list[j].asn == bl_asn {
                    assert(asn_list@[j as int].ip_start <= asn_list@[j as int].ip_end);
                    counter = counter + (asn_list[j].ip_end - asn_list[j].ip_start);
                }
                j += 1;
            }
            proof {
                assert(inner.take(inner.len() as int) =~= inner);
            }
            i += 1;
        }
        proof {
            assert(outer.take(outer.len() as int) =~= outer);
        }
        counter
    }
}

impl IPV4WLEntry {
    /// Whether the number of addresses of the whitelist fits in a `u32`,
    /// so that `count` can add it up.
    pub fn count_fits(ips_vec: &[IPV4WLEntry]) -> (r: bool)
        requires
            forall|i: int| 0 <= i < ips_vec@.len() ==> ips_vec@[i].ip_start <= ips_vec@[i].ip_end,
        ensures
            r == (sum(wl_sizes(ips_vec@)) <= u32::MAX),
    {
        let ghost sizes = wl_sizes(ips_vec@);
        let mut total: u64 = 0;
        let mut i: usize = 0;
        proof {
            assert(sizes.take(0) =~= Seq::<int>::empty());
        }
        while i < ips_vec.len()
            invariant
                i <= ips_vec@.len(),
                sizes == wl_sizes(ips_vec@),
                sizes.len() == ips_vec@.len(),
                forall|k: int| 0 <= k < sizes.len() ==> sizes[k] >= 0,
                total == sum(sizes.take(i as int)),
                total <= u32::MAX,
            decreases ips_vec.len() - i,
        {
            proof {
                lemma_sum_step(sizes, i as int);
            }
            total = total + (ips_vec[i].ip_end - ips_vec[i].ip_start) as u64;
            if total > 4294967295 {
                proof {
                    lemma_sum_prefix_le(sizes, i + 1);
                }
                return false;
            }
            i += 1;
        }
        proof {
            assert(sizes.take(sizes.len() as int) =~= sizes);
        }
        true
    }
}

impl IPV4BLEntry {
    /// Whether the number of addresses of the blacklist fits in a `u32`,
    /// so that `count` can add it up.
    pub fn count_fits(ips_vec: &[IPV4BLEntry]) -> (r: bool)
        requires
            forall|i: int| 0 <= i < ips_vec@.len() ==> #[trigger] bl_ordered(ips_vec@[i]),
        ensures
            r == (sum(bl_sizes(ips_vec@)) <= u32::MAX),
    {
        let ghost sizes = bl_sizes(ips_vec@);
        let mut total: u64 = 0;
        let mut i: usize = 0;
        proof {
            assert forall|k: int| 0 <= k < sizes.len() implies sizes[k] >= 0 by {
                assert(bl_ordered(ips_vec@[k]));
            }
            assert(sizes.take(0) =~= Seq::<int>::empty());
        }
        while i < ips_vec.len()
            invariant
                i <= ips_vec@.len(),
                sizes == bl_sizes(ips_vec@),
                sizes.len() == ips_vec@.len(),
                forall|k: int| 0 <= k < sizes.len() ==> sizes[k] >= 0,
                total == sum(sizes.take(i as int)),
                total <= u32::MAX,
                forall|k: int| 0 <= k < ips_vec@.len() ==> #[trigger] bl_ordered(ips_vec@[k]),
            decreases ips_vec.len() - i,
        {
            proof {
                lemma_sum_step(sizes, i as int);
            }
            match ips_vec[i].ip_end {
                Some(ip_end) => {
                    assert(bl_ordered(ips_vec@[i as int]));
                    total = total + (ip_end - ips_vec[i].ip_start) as u64;
                },
                None => {
                    total = total + 1;
                },
            }
            if total > 4294967295 {
                proof {
                    lemma_sum_prefix_le(sizes, i + 1);
                }
                return false;
            }
            i += 1;
        }
        proof {
            assert(sizes.take(sizes.len() as int) =~= sizes);
        }
        true
    }
}

impl ASNBLEntry {
    /// Whether the number of addresses of the blocked autonomous systems
    /// fits in a `u32`, so that `count` can add it up.
    pub fn count_fits(asn_blacklist: &[ASNBLEntry], asn_list: &[ASNLEntry]) -> (r: bool)
        requires
            asnbl_ranges_ordered(asn_blacklist@, asn_list@),
        ensures
            r == (sum(asnbl_sizes(asn_blacklist@, asn_list@)) <= u32::MAX),
    {
        let ghost outer = asnbl_sizes(asn_blacklist@, asn_list@);
        proof {
            assert forall|k: int| 0 <= k < outer.len() implies outer[k] >= 0 by {
                let inner = asn_sizes(asn_blacklist@[k].asn, asn_list@);
                assert forall|m: int| 0 <= m < inner.len() implies inner[m] >= 0 by {
                    if asn_list@[m].asn == asn_blacklist@[k].asn {
                        assert(asn_list@[m].ip_start <= asn_list@[m].ip_end);
                    }
                }
                lemma_sum_nonneg(inner);
            }
            assert(outer.take(0) =~= Seq::<int>::empty());
        }
        let mut total: u64 = 0;
        let mut i: usize = 0;
        while i < asn_blacklist.len()
            invariant
                i <= asn_blacklist@.len(),
                outer == asnbl_sizes(asn_blacklist@, asn_list@),
                outer.len() == asn_blacklist@.len(),
                forall|k: int| 0 <= k < outer.len() ==> outer[k] >= 0,
                total == sum(outer.take(i as int)),
                total <= u32::MAX,
                asnbl_ranges_ordered(asn_blacklist@, asn_list@),
            decreases asn_blacklist.len() - i,
        {
            let bl_asn: u32 = asn_blacklist[i].asn;
            let ghost inner = asn_sizes(bl_asn, asn_list@);
            proof {
                lemma_sum_step(outer, i as int);
                assert forall|m: int| 0 <= m < inner.len() implies inner[m] >= 0 by {
                    if asn_list@[m].asn == bl_asn {
                        assert(asn_list@[m].ip_start <= asn_list@[m].ip_end);
                    }
                }
                assert(inner.take(0) =~= Seq::<int>::empty());
            }
            let ghost base = total as int;
            let mut j: usize = 0;
            while j < asn_list.len()
                invariant
                    j <= asn_list@.len(),
                    i < asn_blacklist@.len(),
                    bl_asn == asn_blacklist@[i as int].asn,
                    inner == asn_sizes(bl_asn, asn_list@),
                    inner.len() == asn_list@.len(),
                    forall|m: int| 0 <= m < inner.len() ==> inner[m] >= 0,
                    outer == asnbl_sizes(asn_blacklist@, asn_list@),
                    outer.len() == asn_blacklist@.len(),
                    forall|k: int| 0 <= k < outer.len() ==> outer[k] >= 0,
                    outer[i as int] == sum(inner),
                    base == sum(outer.take(i as int)),
                    sum(outer.take(i + 1)) == sum(outer.take(i as int)) + outer[i as int],
                    0 <= base <= u32::MAX,
                    total == base + sum(inner.take(j as int)),
                    total <= u32::MAX,
                    asnbl_ranges_ordered(asn_blacklist@, asn_list@),
                decreases asn_list.len() - j,
            {
                proof {
                    lemma_sum_step(inner, j as int);
                }
                if asn_list[j].asn == bl_asn {
                    assert(asn_list@[j as int].ip_start <= asn_list@[j as int].ip_end);
                    total = total + (asn_list[j].ip_end - asn_list[j].ip_start) as u64;
                    if total > 4294967295 {
                        proof {
                            lemma_sum_prefix_le(inner, j + 1);
                            lemma_sum_prefix_le(outer, i + 1);
                        }
                        return false;
                    }
                }
                j += 1;
            }
            proof {
                assert(inner.take(inner.len() as int) =~= inner);
            }
            i += 1;
        }
        proof {
            assert(outer.take(outer.len() as int) =~= outer);
        }
        true
    }
}

// ---------------------------------------------------------------------------
// Reading the lists from their CSV files.
// ---------------------------------------------------------------------------

/// What `csv` makes of a file of comma-separated values whose lines
/// starting with `#` are comments and whose first record is a header: the
/// fields of each following record, up to the first record that cannot be
/// read, and whether reading stopped on such a record.
pub uninterp spec fn csv_parse(data: Seq<u8>) -> (Seq<Seq<Seq<char>>>, bool);

/// Reads the records of a CSV file with `csv::ReaderBuilder` (comments
/// start with `#`, the first record is a header) and
/// `csv::Reader::records`, stopping at the first record that cannot be
/// read. The contract claims only that the outcome is determined by the
/// bytes, through the name `csv_parse`.
#[verifier::external_body]
fn csv_records(data: &[u8]) -> (r: (Vec<Vec<String>>, bool))
    ensures
        r.0.deep_view() == csv_parse(data@).0,
        r.1 == csv_parse(data@).1,
{
    let mut reader = csv::ReaderBuilder::new().comment(Some(b'#')).from_reader(data);
    let mut rows: Vec<Vec<String>> = Vec::new();
    for record in reader.records() {
        match record {
            Ok(rec) => rows.push(rec.iter().map(String::from).collect()),
            Err(_) => return (rows, true),
        }
    }
    (rows, false)
}

/// Why a list could not be read.
#[derive(Debug, Clone, Copy, PartialEq, Eq, Structural)]
pub enum ListParseError {
    /// A record of the file could not be read.
    Unreadable,
    /// A record lacks this column.
    MissingColumn(usize),
    /// This column of a record is not a number in the range of its type.
    BadNumber(usize),
}

/// Column `col` of a record, read as an unsigned number no larger than
/// `max`.
pub open spec fn spec_field(rec: Seq<Seq<char>>, col: int, max: int) -> Result<int, ListParseError> {
    if rec.len() <= col {
        Err(ListParseError::MissingColumn(col as usize))
    } else {
        match spec_parse_unsigned(rec[col], max) {
            Some(v) => Ok(v),
            None => Err(ListParseError::BadNumber(col as usize)),
        }
    }
}

/// A record of the whitelist: the first and the last address of a range.
pub open spec fn wl_row(rec: Seq<Seq<char>>) -> Result<IPV4WLEntry, ListParseError> {
    match spec_field(rec, 0, u32::MAX as int) {
        Err(e) => Err(e),
        Ok(a) => match spec_field(rec, 1, u32::MAX as int) {
            Err(e) => Err(e),
            Ok(b) => Ok(IPV4WLEntry { ip_start: a as u32, ip_end: b as u32 }),
        },
    }
}

/// A record of the blacklist: an address, the last address of the range
/// or an empty field for a single address, and the abuse code.
pub open spec fn bl_row(rec: Seq<Seq<char>>) -> Result<IPV4BLEntry, ListParseError> {
    match spec_field(rec, 0, u32::MAX as int) {
        Err(e) => Err(e),
        Ok(a) => if rec.len() <= 1 {
            Err(ListParseError::MissingColumn(1))
        } else {
            let end: Result<Option<u32>, ListParseError> = if rec[1].len() == 0 {
                Ok(None)
            } else {
                match spec_field(rec, 1, u32::MAX as int) {
                    Err(e) => Err(e),
                    Ok(b) => Ok(Some(b as u32)),
                }
            };
            match end {
                Err(e) => Err(e),
                Ok(ip_end) => match spec_field(rec, 2, u16::MAX as int) {
                    Err(e) => Err(e),
                    Ok(c) => Ok(IPV4BLEntry { ip_start: a as u32, ip_end, abuse_code: c as u16 }),
                },
            }
        },
    }
}

/// A record of the list of autonomous systems: the first and the last
/// address of a range, and the autonomous system announcing it.
pub open spec fn asnl_row(rec: Seq<Seq<char>>) -> Result<ASNLEntry, ListParseError> {
    match spec_field(rec, 0, u32::MAX as int) {
        Err(e) => Err(e),
        Ok(a) => match spec_field(rec, 1, u32::MAX as int) {
            Err(e) => Err(e),
            Ok(b) => match spec_field(rec, 2, u32::MAX as int) {
                Err(e) => Err(e),
                Ok(c) => Ok(ASNLEntry { ip_start: a as u32, ip_end: b as u32, asn: c as u32 }),
            },
        },
    }
}

/// A record of the list of blocked autonomous systems: the autonomous
/// system and the abuse code.
pub open spec fn asnbl_row(rec: Seq<Seq<char>>) -> Result<ASNBLEntry, ListParseError> {
    match spec_field(rec, 0, u32::MAX as int) {
        Err(e) => Err(e),
        Ok(a) => match spec_field(rec, 1, u16::MAX as int) {
            Err(e) => Err(e),
            Ok(c) => Ok(ASNBLEntry { asn: a as u32, abuse_code: c as u16 }),
        },
    }
}

/// The entries of the records, read in order up to the first record that
/// fails.
pub open spec fn collect_rows<T>(
    recs: Seq<Seq<Seq<char>>>,
    row: spec_fn(Seq<Seq<char>>) -> Result<T, ListParseError>,
) -> Result<Seq<T>, ListParseError>
    decreases recs.len(),
{
    if recs.len() == 0 {
        Ok(Seq::empty())
    } else {
        match collect_rows(recs.drop_last(), row) {
            Err(e) => Err(e),
            Ok(v) => match row(recs.last()) {
                Err(e) => Err(e),
                Ok(x) => Ok(v.push(x)),
            },
        }
    }
}

/// A list read from the bytes of its CSV file: the entries of all the
/// records, or the first failure, a record that cannot be read counting
/// after the records read before it.
pub open spec fn spec_parse_list<T>(
    data: Seq<u8>,
    row: spec_fn(Seq<Seq<char>>) -> Result<T, ListParseError>,
) -> Result<Seq<T>, ListParseError> {
    match collect_rows(csv_parse(data).0, row) {
        Err(e) => Err(e),
        Ok(v) => if csv_parse(data).1 {
            Err(ListParseError::Unreadable)
        } else {
            Ok(v)
        },
    }
}

proof fn lemma_collect_step<T>(
    recs: Seq<Seq<Seq<char>>>,
    row: spec_fn(Seq<Seq<char>>) -> Result<T, ListParseError>,
    i: int,
)
    requires
        0 <= i < recs.len(),
    ensures
        collect_rows(recs.take(i + 1), row) == (match collect_rows(recs.take(i), row) {
            Err(e) => Err(e),
            Ok(v) => match row(recs[i]) {
                Err(e) => Err(e),
                Ok(x) => Ok(v.push(x)),
            },
        }),
{
    assert(recs.take(i + 1).drop_last() =~= recs.take(i));
}

proof fn lemma_collect_err_sticky<T>(
    recs: Seq<Seq<Seq<char>>>,
    row: spec_fn(Seq<Seq<char>>) -> Result<T, ListParseError>,
    i: int,
)
    requires
        0 <= i <= recs.len(),
        collect_rows(recs.take(i), row) is Err,
    ensures
        collect_rows(recs, row) == collect_rows(recs.take(i), row),
    decreases recs.len() - i,
{
    if i == recs.len() {
        assert(recs.take(i) =~= recs);
    } else {
        lemma_collect_step(recs, row, i);
        lemma_collect_err_sticky(recs, row, i + 1);
    }
}

/// Column `col` of a record, read as an unsigned number no larger than
/// `max`.
fn read_field(rec: &Vec<String>, col: usize, max: u64) -> (r: Result<u64, ListParseError>)
    ensures
        r matches Ok(v) ==> spec_field(rec.deep_view(), col as int, max as int) == Ok::<int, ListParseError>(
            v as int,
        ),
        r matches Err(e) ==> spec_field(rec.deep_view(), col as int, max as int) == Err::<int, ListParseError>(e),
{
    if rec.len() <= col {
        return Err(ListParseError::MissingColumn(col));
    }
    assert(rec.deep_view()[col as int] == rec@[col as int]@);
    match parse_unsigned(rec[col].as_str(), max) {
        Some(v) => Ok(v),
        None => Err(ListParseError::BadNumber(col)),
    }
}

impl IPV4WLEntry {
    /// Reads the whitelist from the bytes of its CSV file: one range per
    /// record, its first and its last address.
    pub fn parse(data: &[u8]) -> (r: Result<Vec<IPV4WLEntry>, ListParseError>)
        ensures
            r matches Ok(v) ==> spec_parse_list(data@, |rec| wl_row(rec)) == Ok::<Seq<IPV4WLEntry>, ListParseError>(v@),
            r matches Err(e) ==> spec_parse_list(data@, |rec| wl_row(rec)) == Err::<Seq<IPV4WLEntry>, ListParseError>(e),
    {
        let (rows, stopped) = csv_records(data);
        let ghost recs = rows.deep_view();
        let ghost row = |rec| wl_row(rec);
        let mut out: Vec<IPV4WLEntry> = Vec::new();
        let mut i: usize = 0;
        proof {
            assert(recs.take(0) =~= Seq::<Seq<Seq<char>>>::empty());
        }
        while i < rows.len()
            invariant
                i <= rows@.len(),
                recs == rows.deep_view(),
                recs == csv_parse(data@).0,
                stopped == csv_parse(data@).1,
                row == |rec| wl_row(rec),
                collect_rows(recs.take(i as int), row) == Ok::<Seq<IPV4WLEntry>, ListParseError>(out@),
            decreases rows.len() - i,
        {
            proof {
                lemma_collect_step(recs, row, i as int);
            }
            let rec: &Vec<String> = &rows[i];
            assert(rec.deep_view() == recs[i as int]);
            let ip_start: u64 = match read_field(rec, 0, 4294967295) {
                Ok(v) => v,
                Err(e) => {
                    proof { lemma_collect_err_sticky(recs, row, i + 1); }
                    return Err(e);
                },
            };
            let ip_end: u64 = match read_field(rec, 1, 4294967295) {
                Ok(v) => v,
                Err(e) => {
                    proof { lemma_collect_err_sticky(recs, row, i + 1); }
                    return Err(e);
                },
            };
            out.push(IPV4WLEntry { ip_start: ip_start as u32, ip_end: ip_end as u32 });
            i += 1;
        }
        proof {
            assert(recs.take(recs.len() as int) =~= recs);
        }
        if stopped {
            return Err(ListParseError::Unreadable);
        }
        Ok(out)
    }
}

impl IPV4BLEntry {
    /// Reads the blacklist from the bytes of its CSV file: per record, an
    /// address, the last address of its range (empty for a single address)
    /// and the abuse code.
    pub fn parse(data: &[u8]) -> (r: Result<Vec<IPV4BLEntry>, ListParseError>)
        ensures
            r matches Ok(v) ==> spec_parse_list(data@, |rec| bl_row(rec)) == Ok::<Seq<IPV4BLEntry>, ListParseError>(v@),
            r matches Err(e) ==> spec_parse_list(data@, |rec| bl_row(rec)) == Err::<Seq<IPV4BLEntry>, ListParseError>(e),
    {
        let (rows, stopped) = csv_records(data);
        let ghost recs = rows.deep_view();
        let ghost row = |rec| bl_row(rec);
        let mut out: Vec<IPV4BLEntry> = Vec::new();
        let mut i: usize = 0;
        proof {
            assert(recs.take(0) =~= Seq::<Seq<Seq<char>>>::empty());
        }
        while i < rows.len()
            invariant
                i <= rows@.len(),
                recs == rows.deep_view(),
                recs == csv_parse(data@).0,
                stopped == csv_parse(data@).1,
                row == |rec| bl_row(rec),
                collect_rows(recs.take(i as int), row) == Ok::<Seq<IPV4BLEntry>, ListParseError>(out@),
            decreases rows.len() - i,
        {
            proof {
                lemma_collect_step(recs, row, i as int);
            }
            let rec: &Vec<String> = &rows[i];
            assert(rec.deep_view() == recs[i as int]);
            let ip_start: u64 = match read_field(rec, 0, 4294967295) {
                Ok(v) => v,
                Err(e) => {
                    proof { lemma_collect_err_sticky(recs, row, i + 1); }
                    return Err(e);
                },
            };
            if rec.len() <= 1 {
                proof { lemma_collect_err_sticky(recs, row, i + 1); }
                return Err(ListParseError::MissingColumn(1));
            }
            assert(rec.deep_view()[1] == rec@[1]@);
            let ip_end: Option<u32> = if rec[1].as_str().is_empty() {
                None
            } else {
                match read_field(rec, 1, 4294967295) {
                    Ok(v) => Some(v as u32),
                    Err(e) => {
                        proof { lemma_collect_err_sticky(recs, row, i + 1); }
                        return Err(e);
                    },
                }
            };
            let abuse_code: u64 = match read_field(rec, 2, 65535) {
                Ok(v) => v,
                Err(e) => {
                    proof { lemma_collect_err_sticky(recs, row, i + 1); }
                    return Err(e);
                },
            };
            out.push(IPV4BLEntry { ip_start: ip_start as u32, ip_end, abuse_code: abuse_code as u16 });
            i += 1;
        }
        proof {
            assert(recs.take(recs.len() as int) =~= recs);
        }
        if stopped {
            return Err(ListParseError::Unreadable);
        }
        Ok(out)
    }
}

impl ASNLEntry {
    /// Reads the list of autonomous systems from the bytes of its CSV file:
    /// per record, the first and last address of a range and the autonomous
    /// system announcing it.
    pub fn parse(data: &[u8]) -> (r: Result<Vec<ASNLEntry>, ListParseError>)
        ensures
            r matches Ok(v) ==> spec_parse_list(data@, |rec| asnl_row(rec)) == Ok::<Seq<ASNLEntry>, ListParseError>(v@),
            r matches Err(e) ==> spec_parse_list(data@, |rec| asnl_row(rec)) == Err::<Seq<ASNLEntry>, ListParseError>(e),
    {
        let (rows, stopped) = csv_records(data);
        let ghost recs = rows.deep_view();
        let ghost row = |rec| asnl_row(rec);
        let mut out: Vec<ASNLEntry> = Vec::new();
        let mut i: usize = 0;
        proof {
            assert(recs.take(0) =~= Seq::<Seq<Seq<char>>>::empty());
        }
        while i < rows.len()
            invariant
                i <= rows@.len(),
                recs == rows.deep_view(),
                recs == csv_parse(data@).0,
                stopped == csv_parse(data@).1,
                row == |rec| asnl_row(rec),
                collect_rows(recs.take(i as int), row) == Ok::<Seq<ASNLEntry>, ListParseError>(out@),
            decreases rows.len() - i,
        {
            proof {
                lemma_collect_step(recs, row, i as int);
            }
            let rec: &Vec<String> = &rows[i];
            assert(rec.deep_view() == recs[i as int]);
            let ip_start: u64 = match read_field(rec, 0, 4294967295) {
                Ok(v) => v,
                Err(e) => {
                    proof { lemma_collect_err_sticky(recs, row, i + 1); }
                    return Err(e);
                },
            };
            let ip_end: u64 = match read_field(rec, 1, 4294967295) {
                Ok(v) => v,
                Err(e) => {
                    proof { lemma_collect_err_sticky(recs, row, i + 1); }
                    return Err(e);
                },
            };
            let asn: u64 = match read_field(rec, 2, 4294967295) {
                Ok(v) => v,
                Err(e) => {
                    proof { lemma_collect_err_sticky(recs, row, i + 1); }
                    return Err(e);
                },
            };
            out.push(ASNLEntry { ip_start: ip_start as u32, ip_end: ip_end as u32, asn: asn as u32 });
            i += 1;
        }
        proof {
            assert(recs.take(recs.len() as int) =~= recs);
        }
        if stopped {
            return Err(ListParseError::Unreadable);
        }
        Ok(out)
    }
}

impl ASNBLEntry {
    /// Reads the list of blocked autonomous systems from the bytes of its CSV
    /// file: per record, the autonomous system and the abuse code.
    pub fn parse(data: &[u8]) -> (r: Result<Vec<ASNBLEntry>, ListParseError>)
        ensures
            r matches Ok(v) ==> spec_parse_list(data@, |rec| asnbl_row(rec)) == Ok::<Seq<ASNBLEntry>, ListParseError>(v@),
            r matches Err(e) ==> spec_parse_list(data@, |rec| asnbl_row(rec)) == Err::<Seq<ASNBLEntry>, ListParseError>(e),
    {
        let (rows, stopped) = csv_records(data);
        let ghost recs = rows.deep_view();
        let ghost row = |rec| asnbl_row(rec);
        let mut out: Vec<ASNBLEntry> = Vec::new();
        let mut i: usize = 0;
        proof {
            assert(recs.take(0) =~= Seq::<Seq<Seq<char>>>::empty());
        }
        while i < rows.len()
            invariant
                i <= rows@.len(),
                recs == rows.deep_view(),
                recs == csv_parse(data@).0,
                stopped == csv_parse(data@).1,
                row == |rec| asnbl_row(rec),
                collect_rows(recs.take(i as int), row) == Ok::<Seq<ASNBLEntry>, ListParseError>(out@),
            decreases rows.len() - i,
        {
            proof {
                lemma_collect_step(recs, row, i as int);
            }
            let rec: &Vec<String> = &rows[i];
            assert(rec.deep_view() == recs[i as int]);
            let asn: u64 = match read_field(rec, 0, 4294967295) {
                Ok(v) => v,
                Err(e) => {
                    proof { lemma_collect_err_sticky(recs, row, i + 1); }
                    return Err(e);
                },
            };
            let abuse_code: u64 = match read_field(rec, 1, 65535) {
                Ok(v) => v,
                Err(e) => {
                    proof { lemma_collect_err_sticky(recs, row, i + 1); }
                    return Err(e);
                },
            };
            out.push(ASNBLEntry { asn: asn as u32, abuse_code: abuse_code as u16 });
            i += 1;
        }
        proof {
            assert(recs.take(recs.len() as int) =~= recs);
        }
        if stopped {
            return Err(ListParseError::Unreadable);
        }
        Ok(out)
    }
}

/// `t` is a decimal number of value `v`: one or more ASCII digits, most
/// significant first.
pub open spec fn decimal_text(t: Seq<char>, v: int) -> bool {
    &&& t.len() > 0
    &&& forall|i: int| 0 <= i < t.len() ==> '0' <= #[trigger] t[i] && t[i] <= '9'
    &&& crate::text::digits_value(t) == v
}

proof fn lemma_field_of_decimal(rec: Seq<Seq<char>>, col: int, v: int, max: int)
    requires
        0 <= col < rec.len(),
        decimal_text(rec[col], v),
    ensures
        v <= max ==> spec_field(rec, col, max) == Ok::<int, ListParseError>(v),
        v > max ==> spec_field(rec, col, max) == Err::<int, ListParseError>(ListParseError::BadNumber(col as usize)),
{
    let t = rec[col];
    assert(t[0] != '+');
    assert(crate::text::unsigned_digits(t) == t);
    assert forall|i: int| 0 <= i < t.len() implies crate::text::is_digit(#[trigger] t[i]) by {
        assert('0' <= t[i] && t[i] <= '9');
    }
}

/// A whitelist record whose first two columns are decimal numbers reads as
/// the range between them when both fit in a `u32`; a first column beyond
/// a `u32` is refused as a bad number.
pub proof fn lemma_whitelist_row(rec: Seq<Seq<char>>, a: int, b: int)
    requires
        rec.len() >= 2,
        decimal_text(rec[0], a),
        decimal_text(rec[1], b),
    ensures
        a <= u32::MAX && b <= u32::MAX ==> wl_row(rec) == Ok::<IPV4WLEntry, ListParseError>(
            IPV4WLEntry { ip_start: a as u32, ip_end: b as u32 },
        ),
        a > u32::MAX ==> wl_row(rec) == Err::<IPV4WLEntry, ListParseError>(ListParseError::BadNumber(0)),
        a <= u32::MAX && b > u32::MAX ==> wl_row(rec) == Err::<IPV4WLEntry, ListParseError>(
            ListParseError::BadNumber(1),
        ),
{
    lemma_field_of_decimal(rec, 0, a, u32::MAX as int);
    lemma_field_of_decimal(rec, 1, b, u32::MAX as int);
}

/// A blacklist record of three columns reads as its address, the end of
/// its range (none when the second column is empty) and its abuse code,
/// when the addresses fit in a `u32` and the code in a `u16`.
pub proof fn lemma_blacklist_row(rec: Seq<Seq<char>>, a: int, b: int, c: int)
    requires
        rec.len() >= 3,
        decimal_text(rec[0], a),
        rec[1].len() == 0 || decimal_text(rec[1], b),
        decimal_text(rec[2], c),
        a <= u32::MAX,
        b <= u32::MAX,
        c <= u16::MAX,
    ensures
        bl_row(rec) == Ok::<IPV4BLEntry, ListParseError>(
            IPV4BLEntry {
                ip_start: a as u32,
                ip_end: if rec[1].len() == 0 {
                    None
                } else {
                    Some(b as u32)
                },
                abuse_code: c as u16,
            },
        ),
{
    lemma_field_of_decimal(rec, 0, a, u32::MAX as int);
    if rec[1].len() > 0 {
        lemma_field_of_decimal(rec, 1, b, u32::MAX as int);
    }
    lemma_field_of_decimal(rec, 2, c, u16::MAX as int);
}

/// A record of the list of autonomous systems whose three columns are
/// decimal numbers that fit in a `u32` reads as the range and its system.
pub proof fn lemma_asn_list_row(rec: Seq<Seq<char>>, a: int, b: int, c: int)
    requires
        rec.len() >= 3,
        decimal_text(rec[0], a),
        decimal_text(rec[1], b),
        decimal_text(rec[2], c),
        a <= u32::MAX,
        b <= u32::MAX,
        c <= u32::MAX,
    ensures
        asnl_row(rec) == Ok::<ASNLEntry, ListParseError>(
            ASNLEntry { ip_start: a as u32, ip_end: b as u32, asn: c as u32 },
        ),
{
    lemma_field_of_decimal(rec, 0, a, u32::MAX as int);
    lemma_field_of_decimal(rec, 1, b, u32::MAX as int);
    lemma_field_of_decimal(rec, 2, c, u32::MAX as int);
}

/// A record of the blocked autonomous systems whose two columns are
/// decimal numbers, the system fitting in a `u32` and the code in a `u16`,
/// reads as that system and code.
pub proof fn lemma_asn_blacklist_row(rec: Seq<Seq<char>>, a: int, c: int)
    requires
        rec.len() >= 2,
        decimal_text(rec[0], a),
        decimal_text(rec[1], c),
        a <= u32::MAX,
        c <= u16::MAX,
    ensures
        asnbl_row(rec) == Ok::<ASNBLEntry, ListParseError>(ASNBLEntry { asn: a as u32, abuse_code: c as u16 }),
{
    lemma_field_of_decimal(rec, 0, a, u32::MAX as int);
    lemma_field_of_decimal(rec, 1, c, u16::MAX as int);
}

} // verus!
