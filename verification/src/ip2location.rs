use vstd::prelude::*;
use crate::bans::{BannedIp, LocatedBannedIp};
use crate::ipconverter::{dec_u32_of, ipv4_of, ipv4_to_u32, parse_dec, utf8_bytes};
use vstd::string::StringSliceAdditionalSpecFns;

verus! {

/// One row of the range table: a closed interval `[start, end]` of 32-bit
/// address values owned by one country.
#[derive(PartialEq, Eq, Debug)]
pub struct IPRange {
    pub start: u32,
    pub end: u32,
    pub country_code: String,
    pub country_name: String,
}

impl Clone for IPRange {
    fn clone(&self) -> (res: Self)
        ensures
            res == *self,
    {
        IPRange {
            start: self.start,
            end: self.end,
            country_code: self.country_code.clone(),
            country_name: self.country_name.clone(),
        }
    }
}

pub open spec fn range_contains(r: IPRange, ip: u32) -> bool {
    r.start <= ip && ip <= r.end
}

/// The invariant owed by the data source: intervals are valid, ascending by
/// `start`, and mutually disjoint. The constructor does not re-check it;
/// lookup is exact exactly when it holds.
pub open spec fn ranges_wf(rs: Seq<IPRange>) -> bool {
    &&& forall|i: int| 0 <= i < rs.len() ==> (#[trigger] rs[i]).start <= rs[i].end
    &&& forall|i: int, j: int|
        0 <= i < j < rs.len() ==> (#[trigger] rs[i]).end < (#[trigger] rs[j]).start
}

/// Index of the first range containing `ip`, or `-1` when none does.
pub open spec fn find_range(rs: Seq<IPRange>, ip: u32) -> int
    decreases rs.len(),
{
    if rs.len() == 0 {
        -1
    } else if range_contains(rs[0], ip) {
        0
    } else if find_range(rs.skip(1), ip) >= 0 {
        find_range(rs.skip(1), ip) + 1
    } else {
        -1
    }
}

/// What lookup returns: the country of the first range containing `ip`.
pub open spec fn resolve_model(rs: Seq<IPRange>, ip: u32) -> Option<String> {
    if find_range(rs, ip) >= 0 {
        Some(rs[find_range(rs, ip)].country_name)
    } else {
        None
    }
}

pub proof fn lemma_find_range_spec(rs: Seq<IPRange>, ip: u32)
    ensures
        find_range(rs, ip) >= 0 <==> exists|i: int|
            0 <= i < rs.len() && range_contains(#[trigger] rs[i], ip),
        find_range(rs, ip) >= 0 ==> find_range(rs, ip) < rs.len() && range_contains(
            rs[find_range(rs, ip)],
            ip,
        ),
        forall|j: int| 0 <= j < find_range(rs, ip) ==> !range_contains(#[trigger] rs[j], ip),
    decreases rs.len(),
{
    if rs.len() > 0 && !range_contains(rs[0], ip) {
        lemma_find_range_spec(rs.skip(1), ip);
        let t = rs.skip(1);
        if find_range(t, ip) >= 0 {
            assert(rs[find_range(rs, ip)] == t[find_range(t, ip)]);
        }
        assert forall|i: int|
            0 <= i < rs.len() && range_contains(#[trigger] rs[i], ip) implies find_range(rs, ip)
            >= 0 by {
            if i > 0 {
                assert(t[i - 1] == rs[i]);
            }
        }
        assert forall|j: int| 0 <= j < find_range(rs, ip) implies !range_contains(
            #[trigger] rs[j],
            ip,
        ) by {
            if j > 0 {
                assert(rs[j] == t[j - 1]);
            }
        }
    }
}

/// In a well-formed table, at most one range contains any given address.
pub proof fn lemma_containing_range_unique(rs: Seq<IPRange>, ip: u32, i: int, j: int)
    requires
        ranges_wf(rs),
        0 <= i < rs.len(),
        0 <= j < rs.len(),
        range_contains(rs[i], ip),
        range_contains(rs[j], ip),
    ensures
        i == j,
{
}

/// An address inside a range of a well-formed table resolves to that
/// range's country.
pub proof fn lemma_resolve_in_range(rs: Seq<IPRange>, ip: u32, i: int)
    requires
        ranges_wf(rs),
        0 <= i < rs.len(),
        range_contains(rs[i], ip),
    ensures
        resolve_model(rs, ip) == Some(rs[i].country_name),
{
    lemma_find_range_spec(rs, ip);
    lemma_containing_range_unique(rs, ip, i, find_range(rs, ip));
}

/// An address inside no range — in a gap between ranges or outside the
/// table's span — resolves to nothing.
pub proof fn lemma_resolve_gap(rs: Seq<IPRange>, ip: u32)
    requires
        forall|i: int| 0 <= i < rs.len() ==> !range_contains(#[trigger] rs[i], ip),
    ensures
        resolve_model(rs, ip) is None,
{
    lemma_find_range_spec(rs, ip);
}

/// Intervals are closed: both endpoints of a range resolve to its country.
pub proof fn lemma_resolve_boundaries(rs: Seq<IPRange>, i: int)
    requires
        ranges_wf(rs),
        0 <= i < rs.len(),
    ensures
        resolve_model(rs, rs[i].start) == Some(rs[i].country_name),
        resolve_model(rs, rs[i].end) == Some(rs[i].country_name),
{
    lemma_resolve_in_range(rs, rs[i].start, i);
    lemma_resolve_in_range(rs, rs[i].end, i);
}

/// Lookup is deterministic: any results the lookup contract admits for one
/// table and key are equal, so repeated calls return identical results.
pub proof fn lemma_resolve_deterministic(
    rs: Seq<IPRange>,
    ip: u32,
    r1: Option<String>,
    r2: Option<String>,
)
    requires
        r1 == resolve_model(rs, ip),
        r2 == resolve_model(rs, ip),
    ensures
        r1 == r2,
{
}

/// What one raw dataset row denotes: a range, when the row has exactly four
/// fields and both bounds are decimal `u32` renderings; otherwise nothing.
pub open spec fn row_decode(row: Seq<String>) -> Option<IPRange> {
    if row.len() == 4 && dec_u32_of(utf8_bytes(row[0])) is Some && dec_u32_of(
        utf8_bytes(row[1]),
    ) is Some {
        Some(
            IPRange {
                start: dec_u32_of(utf8_bytes(row[0]))->0,
                end: dec_u32_of(utf8_bytes(row[1]))->0,
                country_code: row[2],
                country_name: row[3],
            },
        )
    } else {
        None
    }
}

/// The ranges decoded from a raw row sequence, rows that decode to nothing
/// silently skipped.
pub open spec fn decode_rows(rows: Seq<Vec<String>>) -> Seq<IPRange>
    decreases rows.len(),
{
    if rows.len() == 0 {
        Seq::<IPRange>::empty()
    } else {
        let prev = decode_rows(rows.drop_last());
        match row_decode(rows.last()@) {
            Some(r) => prev.push(r),
            None => prev,
        }
    }
}

/// A malformed row contributes nothing: inserting it anywhere in the raw
/// data leaves the decoded table unchanged.
pub proof fn lemma_skip_malformed_row(rows: Seq<Vec<String>>, k: int, bad: Vec<String>)
    requires
        0 <= k <= rows.len(),
        row_decode(bad@) is None,
    ensures
        decode_rows(rows.insert(k, bad)) == decode_rows(rows),
    decreases rows.len(),
{
    let r2 = rows.insert(k, bad);
    if k == rows.len() {
        assert(r2.drop_last() =~= rows);
        assert(r2.last() == bad);
    } else {
        assert(r2.last() == rows.last());
        assert(r2.drop_last() =~= rows.drop_last().insert(k, bad));
        lemma_skip_malformed_row(rows.drop_last(), k, bad);
    }
}

/// Well-formed rows are kept one for one: with `lemma_skip_malformed_row`,
/// a dataset of `n` decodable rows and any number of malformed ones yields
/// exactly `n` ranges, in dataset order.
pub proof fn lemma_decode_all_wellformed(rows: Seq<Vec<String>>)
    requires
        forall|k: int| 0 <= k < rows.len() ==> row_decode((#[trigger] rows[k])@) is Some,
    ensures
        decode_rows(rows).len() == rows.len(),
        forall|k: int|
            0 <= k < rows.len() ==> #[trigger] decode_rows(rows)[k] == row_decode(rows[k]@)->0,
    decreases rows.len(),
{
    if rows.len() > 0 {
        assert forall|k: int|
            0 <= k < rows.drop_last().len() implies row_decode(
            (#[trigger] rows.drop_last()[k])@,
        ) is Some by {
            assert(rows.drop_last()[k] == rows[k]);
        }
        lemma_decode_all_wellformed(rows.drop_last());
        assert(rows.last() == rows[rows.len() - 1]);
        assert forall|k: int|
            0 <= k < rows.len() implies #[trigger] decode_rows(rows)[k] == row_decode(
            rows[k]@,
        )->0 by {
            if k < rows.len() - 1 {
                assert(rows.drop_last()[k] == rows[k]);
            }
        }
    }
}

/// The immutable range table: built once from raw rows, read-only after.
pub struct IP2Location {
    ranges: Vec<IPRange>,
}

impl IP2Location {
    pub closed spec fn spec_ranges(&self) -> Seq<IPRange> {
        self.ranges@
    }

    /// Whether this table satisfies the data source's ordering contract.
    pub open spec fn wf(&self) -> bool {
        ranges_wf(self.spec_ranges())
    }

    pub fn new(ranges: Vec<IPRange>) -> (t: IP2Location)
        ensures
            t.spec_ranges() == ranges@,
    {
        IP2Location { ranges }
    }

    pub fn ranges(&self) -> (r: &Vec<IPRange>)
        ensures
            r@ == self.spec_ranges(),
    {
        &self.ranges
    }

    /// Builds the table from raw rows, skipping rows that do not decode:
    /// load tolerates partially malformed input. The rows' ordering contract
    /// is not re-checked here.
    pub fn from_rows(rows: &[Vec<String>]) -> (t: IP2Location)
        ensures
            t.spec_ranges() == decode_rows(rows@),
    {
        let mut ranges: Vec<IPRange> = Vec::new();
        let mut i: usize = 0;
        while i < rows.len()
            invariant
                i <= rows@.len(),
                ranges@ == decode_rows(rows@.take(i as int)),
            decreases rows@.len() - i,
        {
            let row = &rows[i];
            if row.len() == 4 {
                let start = parse_dec(row[0].as_str().as_bytes(), u32::MAX);
                let end = parse_dec(row[1].as_str().as_bytes(), u32::MAX);
                match (start, end) {
                    (Some(s), Some(e)) => {
                        ranges.push(
                            IPRange {
                                start: s,
                                end: e,
                                country_code: row[2].clone(),
                                country_name: row[3].clone(),
                            },
                        );
                    },
                    _ => (),
                }
            }
            i = i + 1;
            proof {
                assert(rows@.take(i as int).drop_last() =~= rows@.take(i as int - 1));
                assert(rows@.take(i as int).last() == rows@[i as int - 1]);
            }
        }
        proof {
            assert(rows@.take(rows@.len() as int) =~= rows@);
        }
        IP2Location { ranges }
    }

    /// Binary search for the unique range containing `target_ip`. A `Some`
    /// result always names a containing range; when the table is
    /// well-formed the result is exactly `resolve_model`, so "not found" is
    /// definitive.
    pub fn find_country_name_of_ip(&self, target_ip: u32) -> (r: Option<String>)
        ensures
            match r {
                Some(name) => exists|i: int|
                    0 <= i < self.spec_ranges().len() && range_contains(
                        #[trigger] self.spec_ranges()[i],
                        target_ip,
                    ) && name == self.spec_ranges()[i].country_name,
                None => true,
            },
            self.wf() ==> r == resolve_model(self.spec_ranges(), target_ip),
    {
        let ghost rs = self.spec_ranges();
        let mut lo: usize = 0;
        let mut hi: usize = self.ranges.len();
        while lo < hi
            invariant
                lo <= hi <= rs.len(),
                self.spec_ranges() == rs,
                ranges_wf(rs) ==> forall|i: int|
                    0 <= i < lo ==> !range_contains(#[trigger] rs[i], target_ip),
                ranges_wf(rs) ==> forall|i: int|
                    hi <= i < rs.len() ==> !range_contains(#[trigger] rs[i], target_ip),
            decreases hi - lo,
        {
            let mid = lo + (hi - lo) / 2;
            let range = &self.ranges[mid];
            if target_ip < range.start {
                hi = mid;
            } else if target_ip > range.end {
                lo = mid + 1;
            } else {
                proof {
                    if ranges_wf(rs) {
                        lemma_resolve_in_range(rs, target_ip, mid as int);
                    }
                }
                return Some(range.country_name.clone());
            }
        }
        proof {
            if ranges_wf(rs) {
                lemma_resolve_gap(rs, target_ip);
            }
        }
        None
    }

    /// The composed lookup: parse a dotted-decimal address, then search.
    pub fn resolve_country(&self, address: &str) -> (r: Option<String>)
        ensures
            match r {
                Some(name) => ipv4_of(address.spec_bytes()) is Some && exists|i: int|
                    0 <= i < self.spec_ranges().len() && range_contains(
                        #[trigger] self.spec_ranges()[i],
                        ipv4_of(address.spec_bytes())->0,
                    ) && name == self.spec_ranges()[i].country_name,
                None => true,
            },
            self.wf() ==> r == (match ipv4_of(address.spec_bytes()) {
                Some(ip) => resolve_model(self.spec_ranges(), ip),
                None => None::<String>,
            }),
    {
        match ipv4_to_u32(address) {
            Ok(ip) => self.find_country_name_of_ip(ip),
            Err(_) => None,
        }
    }
}

/// The located records for `bans`, in input order: records whose address
/// does not parse or falls in no range are dropped.
pub open spec fn locate_model(rs: Seq<IPRange>, bans: Seq<BannedIp>) -> Seq<LocatedBannedIp>
    decreases bans.len(),
{
    if bans.len() == 0 {
        Seq::<LocatedBannedIp>::empty()
    } else {
        let prev = locate_model(rs, bans.drop_last());
        let b = bans.last();
        match ipv4_of(utf8_bytes(b.ip)) {
            Some(ip) => match resolve_model(rs, ip) {
                Some(name) => prev.push(LocatedBannedIp { ip: b, country_name: name }),
                None => prev,
            },
            None => prev,
        }
    }
}

/// A located record justified by the table and the input: its ban record
/// occurs in the input, its address parses, and some range containing the
/// parsed address carries its country.
pub open spec fn located_from(rs: Seq<IPRange>, bans: Seq<BannedIp>, l: LocatedBannedIp) -> bool {
    exists|m: int, i: int|
        {
            &&& 0 <= m < bans.len()
            &&& l.ip == bans[m]
            &&& 0 <= i < rs.len()
            &&& ipv4_of(utf8_bytes(bans[m].ip)) is Some
            &&& range_contains(#[trigger] rs[i], ipv4_of(utf8_bytes(#[trigger] bans[m].ip))->0)
            &&& l.country_name == rs[i].country_name
        }
}

/// Resolves each banned address against the table, keeping the records
/// that found a country.
pub fn locate_banned_ips(ip2location: &IP2Location, banned_ips: &[BannedIp]) -> (r: Vec<
    LocatedBannedIp,
>)
    ensures
        ip2location.wf() ==> r@ == locate_model(ip2location.spec_ranges(), banned_ips@),
        r@.len() <= banned_ips@.len(),
        forall|k: int|
            0 <= k < r@.len() ==> located_from(
                ip2location.spec_ranges(),
                banned_ips@,
                #[trigger] r@[k],
            ),
{
    let ghost rs = ip2location.spec_ranges();
    let mut located: Vec<LocatedBannedIp> = Vec::new();
    let mut i: usize = 0;
    while i < banned_ips.len()
        invariant
            i <= banned_ips@.len(),
            ip2location.spec_ranges() == rs,
            ip2location.wf() ==> located@ == locate_model(rs, banned_ips@.take(i as int)),
            located@.len() <= i,
            forall|k: int|
                0 <= k < located@.len() ==> located_from(rs, banned_ips@, #[trigger] located@[k]),
        decreases banned_ips@.len() - i,
    {
        let banned_ip = &banned_ips[i];
        match ipv4_to_u32(banned_ip.ip.as_str()) {
            Ok(target_ip) => {
                match ip2location.find_country_name_of_ip(target_ip) {
                    Some(country_name) => {
                        proof {
                            let cn = country_name;
                            let jj = choose|jj: int|
                                0 <= jj < rs.len() && range_contains(#[trigger] rs[jj], target_ip)
                                    && cn == rs[jj].country_name;
                            assert(range_contains(rs[jj], target_ip));
                            assert(ipv4_of(utf8_bytes(banned_ips@[i as int].ip)) == Some(
                                target_ip,
                            ));
                        }
                        located.push(LocatedBannedIp { ip: banned_ip.clone(), country_name });
                        proof {
                            assert(located_from(rs, banned_ips@, located@.last()));
                        }
                    },
                    None => (),
                }
            },
            Err(_) => (),
        }
        i = i + 1;
        proof {
            assert(banned_ips@.take(i as int).drop_last() =~= banned_ips@.take(i as int - 1));
            assert(banned_ips@.take(i as int).last() == banned_ips@[i as int - 1]);
        }
    }
    proof {
        assert(banned_ips@.take(banned_ips@.len() as int) =~= banned_ips@);
    }
    located
}

} // verus!
