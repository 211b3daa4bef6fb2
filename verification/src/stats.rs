use vstd::prelude::*;
use crate::bans::LocatedBannedIp;
use crate::ipconverter::utf8_bytes;
use crate::sorting::{
    bytes_lt, insert_by, lemma_insert_by_at, lemma_lex_lt_irrefl, lemma_lex_lt_trans,
    lemma_sort_by_distinct, lemma_sort_by_sorted, lex_lt, sort_by, sorted_by,
};

verus! {

/// The total bans attributed to one country, derived on each `Stats`
/// construction.
#[derive(PartialEq, Eq, Debug)]
pub struct CountryBans {
    pub country_name: String,
    pub number_of_bans: u32,
}

impl Clone for CountryBans {
    fn clone(&self) -> (res: Self)
        ensures
            res == *self,
    {
        CountryBans {
            country_name: self.country_name.clone(),
            number_of_bans: self.number_of_bans,
        }
    }
}

/// The ranking of address records: more bans first; equal counts ordered by
/// the address string, ascending. The secondary key makes ranked output
/// reproducible on tied counts.
pub open spec fn located_before(a: LocatedBannedIp, b: LocatedBannedIp) -> bool {
    ||| a.ip.number_of_bans > b.ip.number_of_bans
    ||| (a.ip.number_of_bans == b.ip.number_of_bans && lex_lt(
        utf8_bytes(a.ip.ip),
        utf8_bytes(b.ip.ip),
    ))
}

/// The ranking of country records: more bans first; equal totals ordered by
/// the country name, ascending.
pub open spec fn country_before(a: CountryBans, b: CountryBans) -> bool {
    ||| a.number_of_bans > b.number_of_bans
    ||| (a.number_of_bans == b.number_of_bans && lex_lt(
        utf8_bytes(a.country_name),
        utf8_bytes(b.country_name),
    ))
}

pub open spec fn located_lt() -> spec_fn(LocatedBannedIp, LocatedBannedIp) -> bool {
    |a: LocatedBannedIp, b: LocatedBannedIp| located_before(a, b)
}

pub open spec fn country_lt() -> spec_fn(CountryBans, CountryBans) -> bool {
    |a: CountryBans, b: CountryBans| country_before(a, b)
}

/// Two country records count the same country.
pub open spec fn country_eqv() -> spec_fn(CountryBans, CountryBans) -> bool {
    |a: CountryBans, b: CountryBans| a.country_name@ == b.country_name@
}

pub proof fn lemma_located_ranking_laws()
    ensures
        forall|a: LocatedBannedIp, b: LocatedBannedIp, c: LocatedBannedIp|
            #[trigger] located_before(a, b) && #[trigger] located_before(b, c) ==> located_before(
                a,
                c,
            ),
        forall|a: LocatedBannedIp| !#[trigger] located_before(a, a),
{
    assert forall|a: LocatedBannedIp, b: LocatedBannedIp, c: LocatedBannedIp|
        #[trigger] located_before(a, b) && #[trigger] located_before(b, c) implies located_before(
        a,
        c,
    ) by {
        if a.ip.number_of_bans == c.ip.number_of_bans {
            lemma_lex_lt_trans(utf8_bytes(a.ip.ip), utf8_bytes(b.ip.ip), utf8_bytes(c.ip.ip));
        }
    }
    assert forall|a: LocatedBannedIp| !#[trigger] located_before(a, a) by {
        lemma_lex_lt_irrefl(utf8_bytes(a.ip.ip));
    }
}

pub proof fn lemma_country_ranking_laws()
    ensures
        forall|a: CountryBans, b: CountryBans, c: CountryBans|
            #[trigger] country_before(a, b) && #[trigger] country_before(b, c) ==> country_before(
                a,
                c,
            ),
        forall|a: CountryBans| !#[trigger] country_before(a, a),
{
    assert forall|a: CountryBans, b: CountryBans, c: CountryBans|
        #[trigger] country_before(a, b) && #[trigger] country_before(b, c) implies country_before(
        a,
        c,
    ) by {
        if a.number_of_bans == c.number_of_bans {
            lemma_lex_lt_trans(
                utf8_bytes(a.country_name),
                utf8_bytes(b.country_name),
                utf8_bytes(c.country_name),
            );
        }
    }
    assert forall|a: CountryBans| !#[trigger] country_before(a, a) by {
        lemma_lex_lt_irrefl(utf8_bytes(a.country_name));
    }
}

/// The sum of `ban_count`s that `bans` attributes to the country `name`.
/// The grouping key is the exact country name string.
pub open spec fn country_total(bans: Seq<LocatedBannedIp>, name: Seq<char>) -> int
    decreases bans.len(),
{
    if bans.len() == 0 {
        0
    } else {
        country_total(bans.drop_last(), name) + if bans.last().country_name@ == name {
            bans.last().ip.number_of_bans as int
        } else {
            0int
        }
    }
}

pub open spec fn has_country(bans: Seq<LocatedBannedIp>, name: Seq<char>) -> bool {
    exists|k: int| 0 <= k < bans.len() && (#[trigger] bans[k]).country_name@ == name
}

pub proof fn lemma_country_total_nonneg(bans: Seq<LocatedBannedIp>, name: Seq<char>)
    ensures
        country_total(bans, name) >= 0,
    decreases bans.len(),
{
    if bans.len() > 0 {
        lemma_country_total_nonneg(bans.drop_last(), name);
    }
}

pub proof fn lemma_country_total_absent(bans: Seq<LocatedBannedIp>, name: Seq<char>)
    requires
        !has_country(bans, name),
    ensures
        country_total(bans, name) == 0,
    decreases bans.len(),
{
    if bans.len() > 0 {
        assert(!has_country(bans.drop_last(), name)) by {
            assert forall|k: int|
                0 <= k < bans.drop_last().len() implies (#[trigger] bans.drop_last()[k]).country_name@
                != name by {
                assert(bans.drop_last()[k] == bans[k]);
            }
        }
        lemma_country_total_absent(bans.drop_last(), name);
        assert(bans.last() == bans[bans.len() - 1]);
    }
}

/// Index of the entry for `name` in an accumulated country list, or `-1`.
pub open spec fn country_index(cs: Seq<CountryBans>, name: Seq<char>) -> int
    decreases cs.len(),
{
    if cs.len() == 0 {
        -1
    } else if cs[0].country_name@ == name {
        0
    } else if country_index(cs.skip(1), name) >= 0 {
        country_index(cs.skip(1), name) + 1
    } else {
        -1
    }
}

pub proof fn lemma_country_index_spec(cs: Seq<CountryBans>, name: Seq<char>)
    ensures
        country_index(cs, name) >= 0 <==> exists|k: int|
            0 <= k < cs.len() && (#[trigger] cs[k]).country_name@ == name,
        country_index(cs, name) >= 0 ==> country_index(cs, name) < cs.len() && cs[country_index(
            cs,
            name,
        )].country_name@ == name,
    decreases cs.len(),
{
    if cs.len() > 0 && cs[0].country_name@ != name {
        let t = cs.skip(1);
        lemma_country_index_spec(t, name);
        if country_index(t, name) >= 0 {
            assert(cs[country_index(cs, name)] == t[country_index(t, name)]);
        }
        assert forall|k: int|
            0 <= k < cs.len() && (#[trigger] cs[k]).country_name@ == name implies country_index(
            cs,
            name,
        ) >= 0 by {
            if k > 0 {
                assert(t[k - 1] == cs[k]);
            }
        }
    }
}

/// `country_index` looks only at the names.
pub proof fn lemma_country_index_names(cs1: Seq<CountryBans>, cs2: Seq<CountryBans>, name: Seq<char>)
    requires
        cs1.len() == cs2.len(),
        forall|k: int|
            0 <= k < cs1.len() ==> (#[trigger] cs1[k]).country_name@ == cs2[k].country_name@,
    ensures
        country_index(cs1, name) == country_index(cs2, name),
    decreases cs1.len(),
{
    if cs1.len() > 0 {
        assert forall|k: int|
            0 <= k < cs1.skip(1).len() implies (#[trigger] cs1.skip(1)[k]).country_name@
            == cs2.skip(1)[k].country_name@ by {
            assert(cs1.skip(1)[k] == cs1[k + 1]);
            assert(cs2.skip(1)[k] == cs2[k + 1]);
        }
        lemma_country_index_names(cs1.skip(1), cs2.skip(1), name);
    }
}

pub proof fn lemma_country_index_push(cs: Seq<CountryBans>, e: CountryBans, name: Seq<char>)
    ensures
        country_index(cs.push(e), name) == if country_index(cs, name) >= 0 {
            country_index(cs, name)
        } else if e.country_name@ == name {
            cs.len() as int
        } else {
            -1int
        },
    decreases cs.len(),
{
    let t = cs.push(e);
    assert(t.len() == cs.len() + 1);
    if cs.len() == 0 {
        assert(t[0] == e);
        assert(t.skip(1) =~= Seq::<CountryBans>::empty());
        assert(country_index(t.skip(1), name) == -1);
    } else {
        assert(t[0] == cs[0]);
        assert(t.skip(1) =~= cs.skip(1).push(e));
        lemma_country_index_push(cs.skip(1), e, name);
        if cs[0].country_name@ == name {
            assert(country_index(t, name) == 0);
            assert(country_index(cs, name) == 0);
        } else {
            assert(country_index(t, name) == if country_index(t.skip(1), name) >= 0 {
                country_index(t.skip(1), name) + 1
            } else {
                -1int
            });
            assert(country_index(cs, name) == if country_index(cs.skip(1), name) >= 0 {
                country_index(cs.skip(1), name) + 1
            } else {
                -1int
            });
            assert(country_index(t.skip(1), name) == country_index(cs.skip(1).push(e), name));
        }
    }
}

/// Per-country totals in order of each country's first appearance.
pub open spec fn group_by_country(bans: Seq<LocatedBannedIp>) -> Seq<CountryBans>
    decreases bans.len(),
{
    if bans.len() == 0 {
        Seq::<CountryBans>::empty()
    } else {
        let g = group_by_country(bans.drop_last());
        let b = bans.last();
        let k = country_index(g, b.country_name@);
        if k >= 0 {
            g.update(
                k,
                CountryBans {
                    country_name: g[k].country_name,
                    number_of_bans: (g[k].number_of_bans + b.ip.number_of_bans) as u32,
                },
            )
        } else {
            g.push(
                CountryBans { country_name: b.country_name, number_of_bans: b.ip.number_of_bans },
            )
        }
    }
}

/// The accumulated list holds exactly the countries seen, once each, with
/// their exact totals.
pub proof fn lemma_group_props(bans: Seq<LocatedBannedIp>)
    requires
        forall|c: Seq<char>| #[trigger] country_total(bans, c) <= u32::MAX,
    ensures
        forall|k: int|
            0 <= k < group_by_country(bans).len() ==> {
                let e = #[trigger] group_by_country(bans)[k];
                has_country(bans, e.country_name@) && e.number_of_bans == country_total(
                    bans,
                    e.country_name@,
                )
            },
        forall|c: Seq<char>|
            #[trigger] country_index(group_by_country(bans), c) >= 0 <==> has_country(bans, c),
        forall|k1: int, k2: int|
            0 <= k1 < k2 < group_by_country(bans).len() ==> (#[trigger] group_by_country(
                bans,
            )[k1]).country_name@ != (#[trigger] group_by_country(bans)[k2]).country_name@,
    decreases bans.len(),
{
    if bans.len() == 0 {
    } else {
        let s0 = bans.drop_last();
        let b = bans.last();
        let name = b.country_name@;
        let g0 = group_by_country(s0);
        let g = group_by_country(bans);
        assert(b == bans[bans.len() - 1]);
        assert forall|c: Seq<char>| #[trigger] country_total(s0, c) <= u32::MAX by {
            assert(country_total(bans, c) <= u32::MAX);
            lemma_country_total_nonneg(s0, c);
        }
        lemma_group_props(s0);
        lemma_country_index_spec(g0, name);
        assert forall|c: Seq<char>| has_country(s0, c) implies has_country(bans, c) by {
            let k = choose|k: int| 0 <= k < s0.len() && (#[trigger] s0[k]).country_name@ == c;
            assert(bans[k] == s0[k]);
        }
        assert forall|c: Seq<char>|
            has_country(bans, c) && c != name implies has_country(s0, c) by {
            let k = choose|k: int| 0 <= k < bans.len() && (#[trigger] bans[k]).country_name@ == c;
            assert(s0[k] == bans[k]);
        }
        assert forall|c: Seq<char>| c != name implies country_total(bans, c) == country_total(
            s0,
            c,
        ) by {}
        let k = country_index(g0, name);
        if k >= 0 {
            let e = CountryBans {
                country_name: g0[k].country_name,
                number_of_bans: (g0[k].number_of_bans + b.ip.number_of_bans) as u32,
            };
            assert(g == g0.update(k, e));
            assert(g0[k].number_of_bans == country_total(s0, name));
            assert(country_total(bans, name) == country_total(s0, name)
                + b.ip.number_of_bans as int);
            assert(country_total(bans, name) <= u32::MAX);
            lemma_country_total_nonneg(s0, name);
            assert(e.number_of_bans == country_total(bans, name));
            assert forall|c: Seq<char>|
                #[trigger] country_index(g, c) >= 0 <==> has_country(bans, c) by {
                lemma_country_index_names(g, g0, c);
            }
            assert(has_country(bans, name)) by {
                assert(bans[bans.len() - 1].country_name@ == name);
            }
        } else {
            let e = CountryBans { country_name: b.country_name, number_of_bans: b.ip.number_of_bans };
            assert(g == g0.push(e));
            assert(!has_country(s0, name));
            lemma_country_total_absent(s0, name);
            assert(country_total(bans, name) == b.ip.number_of_bans as int);
            assert forall|kk: int| 0 <= kk < g.len() implies {
                let ge = #[trigger] g[kk];
                has_country(bans, ge.country_name@) && ge.number_of_bans == country_total(
                    bans,
                    ge.country_name@,
                )
            } by {
                if kk < g0.len() {
                    assert(g[kk] == g0[kk]);
                    assert(g0[kk].country_name@ != name);
                } else {
                    assert(g[kk] == e);
                    assert(bans[bans.len() - 1].country_name@ == name);
                }
            }
            assert forall|c: Seq<char>|
                #[trigger] country_index(g, c) >= 0 <==> has_country(bans, c) by {
                lemma_country_index_push(g0, e, c);
                if c == name {
                    assert(bans[bans.len() - 1].country_name@ == name);
                }
            }
            assert forall|k1: int, k2: int| 0 <= k1 < k2 < g.len() implies (#[trigger] g[k1]).country_name@
                != (#[trigger] g[k2]).country_name@ by {
                if k2 == g0.len() {
                    assert(g[k1] == g0[k1]);
                    assert(g[k2] == e);
                }
            }
        }
    }
}

/// The ordered view of the address records: the input re-ranked by
/// `located_before`.
pub open spec fn located_model(bans: Seq<LocatedBannedIp>) -> Seq<LocatedBannedIp> {
    sort_by(located_lt(), bans)
}

/// The ordered view of the country records: the per-country totals,
/// re-ranked by `country_before`.
pub open spec fn countries_model(bans: Seq<LocatedBannedIp>) -> Seq<CountryBans> {
    sort_by(country_lt(), group_by_country(bans))
}

fn located_ranks_before(a: &LocatedBannedIp, b: &LocatedBannedIp) -> (r: bool)
    ensures
        r == located_before(*a, *b),
{
    if a.ip.number_of_bans > b.ip.number_of_bans {
        true
    } else if a.ip.number_of_bans == b.ip.number_of_bans {
        bytes_lt(a.ip.ip.as_str().as_bytes(), b.ip.ip.as_str().as_bytes())
    } else {
        false
    }
}

fn country_ranks_before(a: &CountryBans, b: &CountryBans) -> (r: bool)
    ensures
        r == country_before(*a, *b),
{
    if a.number_of_bans > b.number_of_bans {
        true
    } else if a.number_of_bans == b.number_of_bans {
        bytes_lt(a.country_name.as_str().as_bytes(), b.country_name.as_str().as_bytes())
    } else {
        false
    }
}

fn insert_located(out: &mut Vec<LocatedBannedIp>, x: LocatedBannedIp)
    ensures
        final(out)@ == insert_by(located_lt(), old(out)@, x),
{
    let mut p: usize = 0;
    while p < out.len() && !located_ranks_before(&x, &out[p])
        invariant
            p <= out@.len(),
            *out == *old(out),
            forall|q: int| 0 <= q < p ==> !located_before(x, #[trigger] out@[q]),
        decreases out@.len() - p,
    {
        p = p + 1;
    }
    proof {
        lemma_insert_by_at(located_lt(), out@, x, p as int);
    }
    out.insert(p, x);
}

fn insert_country(out: &mut Vec<CountryBans>, x: CountryBans)
    ensures
        final(out)@ == insert_by(country_lt(), old(out)@, x),
{
    let mut p: usize = 0;
    while p < out.len() && !country_ranks_before(&x, &out[p])
        invariant
            p <= out@.len(),
            *out == *old(out),
            forall|q: int| 0 <= q < p ==> !country_before(x, #[trigger] out@[q]),
        decreases out@.len() - p,
    {
        p = p + 1;
    }
    proof {
        lemma_insert_by_at(country_lt(), out@, x, p as int);
    }
    out.insert(p, x);
}

fn sort_located(bans: &[LocatedBannedIp]) -> (r: Vec<LocatedBannedIp>)
    ensures
        r@ == located_model(bans@),
{
    let mut out: Vec<LocatedBannedIp> = Vec::new();
    let mut i: usize = 0;
    while i < bans.len()
        invariant
            i <= bans@.len(),
            out@ == sort_by(located_lt(), bans@.take(i as int)),
        decreases bans@.len() - i,
    {
        insert_located(&mut out, bans[i].clone());
        i = i + 1;
        proof {
            assert(bans@.take(i as int).drop_last() =~= bans@.take(i as int - 1));
            assert(bans@.take(i as int).last() == bans@[i as int - 1]);
        }
    }
    proof {
        assert(bans@.take(bans@.len() as int) =~= bans@);
    }
    out
}

fn sort_countries(countries: Vec<CountryBans>) -> (r: Vec<CountryBans>)
    ensures
        r@ == sort_by(country_lt(), countries@),
{
    let mut out: Vec<CountryBans> = Vec::new();
    let mut i: usize = 0;
    while i < countries.len()
        invariant
            i <= countries@.len(),
            out@ == sort_by(country_lt(), countries@.take(i as int)),
        decreases countries@.len() - i,
    {
        insert_country(&mut out, countries[i].clone());
        i = i + 1;
        proof {
            assert(countries@.take(i as int).drop_last() =~= countries@.take(i as int - 1));
            assert(countries@.take(i as int).last() == countries@[i as int - 1]);
        }
    }
    proof {
        assert(countries@.take(countries@.len() as int) =~= countries@);
    }
    out
}

fn find_country_entry(countries: &Vec<CountryBans>, name: &String) -> (r: Option<usize>)
    ensures
        match r {
            Some(k) => k < countries@.len() && country_index(countries@, name@) == k,
            None => country_index(countries@, name@) == -1,
        },
{
    let mut j: usize = 0;
    while j < countries.len()
        invariant
            j <= countries@.len(),
            forall|q: int| 0 <= q < j ==> (#[trigger] countries@[q]).country_name@ != name@,
        decreases countries@.len() - j,
    {
        if countries[j].country_name == *name {
            proof {
                lemma_country_index_at(countries@, name@, j as int);
            }
            return Some(j);
        }
        j = j + 1;
    }
    proof {
        lemma_country_index_at(countries@, name@, countries@.len() as int);
    }
    None
}

proof fn lemma_country_index_at(cs: Seq<CountryBans>, name: Seq<char>, k: int)
    requires
        0 <= k <= cs.len(),
        forall|q: int| 0 <= q < k ==> (#[trigger] cs[q]).country_name@ != name,
        k < cs.len() ==> cs[k].country_name@ == name,
    ensures
        k < cs.len() ==> country_index(cs, name) == k,
        k == cs.len() ==> country_index(cs, name) == -1,
    decreases cs.len(),
{
    if cs.len() > 0 && k > 0 {
        let t = cs.skip(1);
        assert forall|q: int| 0 <= q < k - 1 implies (#[trigger] t[q]).country_name@ != name by {
            assert(t[q] == cs[q + 1]);
        }
        if k - 1 < t.len() {
            assert(t[k - 1] == cs[k]);
        }
        lemma_country_index_at(t, name, k - 1);
    }
}

/// Ranked, immutable views over located ban records: address records by
/// ban count, and per-country totals by total count, both descending.
/// Built once; reads never recompute or mutate the views.
pub struct Stats {
    banned_ips_sorted_by_bans_count: Vec<LocatedBannedIp>,
    countries_sorted_by_bans_count: Vec<CountryBans>,
}

impl Stats {
    pub closed spec fn spec_top_ips(&self) -> Seq<LocatedBannedIp> {
        self.banned_ips_sorted_by_bans_count@
    }

    pub closed spec fn spec_top_countries(&self) -> Seq<CountryBans> {
        self.countries_sorted_by_bans_count@
    }

    /// Groups the records by exact country name and sums each country's
    /// ban counts, most banned country first.
    fn get_number_of_bans_per_country(banned_ips: &[LocatedBannedIp]) -> (r: Vec<CountryBans>)
        requires
            forall|c: Seq<char>| #[trigger] country_total(banned_ips@, c) <= u32::MAX,
        ensures
            r@ == countries_model(banned_ips@),
    {
        let ghost all = banned_ips@;
        let mut acc: Vec<CountryBans> = Vec::new();
        let mut i: usize = 0;
        while i < banned_ips.len()
            invariant
                i <= all.len(),
                banned_ips@ == all,
                forall|c: Seq<char>| #[trigger] country_total(all, c) <= u32::MAX,
                acc@ == group_by_country(all.take(i as int)),
            decreases all.len() - i,
        {
            let ghost prefix = all.take(i as int);
            let ghost next = all.take(i as int + 1);
            proof {
                assert(next.drop_last() =~= prefix);
                assert(next.last() == all[i as int]);
                assert forall|c: Seq<char>| #[trigger] country_total(prefix, c)
                    <= u32::MAX by {
                    lemma_country_total_prefix(all, c, i as int);
                }
                assert forall|c: Seq<char>| #[trigger] country_total(next, c) <= u32::MAX by {
                    lemma_country_total_prefix(all, c, i as int + 1);
                }
                lemma_group_props(prefix);
            }
            let banned_ip = &banned_ips[i];
            match find_country_entry(&acc, &banned_ip.country_name) {
                Some(k) => {
                    proof {
                        lemma_country_index_spec(acc@, banned_ip.country_name@);
                        assert(acc@[k as int].number_of_bans == country_total(
                            prefix,
                            acc@[k as int].country_name@,
                        ));
                        assert(acc@[k as int].country_name@ == banned_ip.country_name@);
                        lemma_country_total_nonneg(prefix, banned_ip.country_name@);
                        assert(country_total(next, banned_ip.country_name@) <= u32::MAX);
                    }
                    let entry = acc.remove(k);
                    let total = entry.number_of_bans + banned_ip.ip.number_of_bans;
                    acc.insert(k, CountryBans { country_name: entry.country_name, number_of_bans: total });
                    proof {
                        assert(acc@ =~= group_by_country(prefix).update(
                            k as int,
                            CountryBans {
                                country_name: group_by_country(prefix)[k as int].country_name,
                                number_of_bans: total,
                            },
                        ));
                    }
                },
                None => {
                    acc.push(
                        CountryBans {
                            country_name: banned_ip.country_name.clone(),
                            number_of_bans: banned_ip.ip.number_of_bans,
                        },
                    );
                },
            }
            i = i + 1;
        }
        proof {
            assert(all.take(all.len() as int) =~= all);
        }
        sort_countries(acc)
    }

    /// Builds both ranked views from the located records. The per-country
    /// sums must fit the count type; nothing else is asked of the input.
    pub fn new(banned_ips: Vec<LocatedBannedIp>) -> (stats: Stats)
        requires
            forall|c: Seq<char>| #[trigger] country_total(banned_ips@, c) <= u32::MAX,
        ensures
            stats.spec_top_ips() == located_model(banned_ips@),
            stats.spec_top_countries() == countries_model(banned_ips@),
    {
        let countries_sorted_by_bans_count = Stats::get_number_of_bans_per_country(
            banned_ips.as_slice(),
        );
        let banned_ips_sorted_by_bans_count = sort_located(banned_ips.as_slice());
        Stats { banned_ips_sorted_by_bans_count, countries_sorted_by_bans_count }
    }

    /// The first `limit` entries of the address ranking, or all of them
    /// when fewer are available.
    pub fn get_top_banned_ips(&self, limit: usize) -> (r: &[LocatedBannedIp])
        ensures
            r@ == self.spec_top_ips().take(clamp_limit(limit, self.spec_top_ips().len())),
    {
        let end = if limit < self.banned_ips_sorted_by_bans_count.len() {
            limit
        } else {
            self.banned_ips_sorted_by_bans_count.len()
        };
        let r = &self.banned_ips_sorted_by_bans_count.as_slice()[0..end];
        proof {
            assert(r@ =~= self.spec_top_ips().take(end as int));
        }
        r
    }

    /// The first `limit` entries of the country ranking, or all of them
    /// when fewer are available.
    pub fn get_top_banned_countries(&self, limit: usize) -> (r: &[CountryBans])
        ensures
            r@ == self.spec_top_countries().take(
                clamp_limit(limit, self.spec_top_countries().len()),
            ),
    {
        let end = if limit < self.countries_sorted_by_bans_count.len() {
            limit
        } else {
            self.countries_sorted_by_bans_count.len()
        };
        let r = &self.countries_sorted_by_bans_count.as_slice()[0..end];
        proof {
            assert(r@ =~= self.spec_top_countries().take(end as int));
        }
        r
    }
}

/// A requested length clamped to what is available.
pub open spec fn clamp_limit(limit: usize, n: nat) -> int {
    if limit as nat <= n {
        limit as int
    } else {
        n as int
    }
}

/// The address ranking is the input in full descending order: the same
/// records, none added or lost, with no record ranked ahead of an earlier
/// one.
pub proof fn lemma_located_model_ranked(bans: Seq<LocatedBannedIp>)
    ensures
        sorted_by(located_lt(), located_model(bans)),
        located_model(bans).to_multiset() == bans.to_multiset(),
        located_model(bans).len() == bans.len(),
{
    lemma_located_ranking_laws();
    lemma_sort_by_sorted(located_lt(), bans);
}

/// The country ranking holds exactly the countries that occur in the
/// input, once each, with their exact totals, in full descending order.
pub proof fn lemma_countries_model_ranked(bans: Seq<LocatedBannedIp>)
    requires
        forall|c: Seq<char>| #[trigger] country_total(bans, c) <= u32::MAX,
    ensures
        sorted_by(country_lt(), countries_model(bans)),
        forall|k: int|
            0 <= k < countries_model(bans).len() ==> {
                let e = #[trigger] countries_model(bans)[k];
                has_country(bans, e.country_name@) && e.number_of_bans == country_total(
                    bans,
                    e.country_name@,
                )
            },
        forall|c: Seq<char>|
            #[trigger] has_country(bans, c) ==> exists|k: int|
                0 <= k < countries_model(bans).len() && (#[trigger] countries_model(
                    bans,
                )[k]).country_name@ == c,
        forall|k1: int, k2: int|
            0 <= k1 < k2 < countries_model(bans).len() ==> (#[trigger] countries_model(
                bans,
            )[k1]).country_name@ != (#[trigger] countries_model(bans)[k2]).country_name@,
{
    broadcast use vstd::seq_lib::group_to_multiset_ensures;

    lemma_country_ranking_laws();
    lemma_group_props(bans);
    let g = group_by_country(bans);
    let r = countries_model(bans);
    lemma_sort_by_sorted(country_lt(), g);
    lemma_sort_by_distinct(country_lt(), country_eqv(), g);
    assert forall|k: int| 0 <= k < r.len() implies {
        let e = #[trigger] r[k];
        has_country(bans, e.country_name@) && e.number_of_bans == country_total(
            bans,
            e.country_name@,
        )
    } by {
        let m = choose|m: int| 0 <= m < g.len() && r[k] == g[m];
    }
    assert forall|c: Seq<char>| #[trigger] has_country(bans, c) implies exists|k: int|
        0 <= k < r.len() && (#[trigger] r[k]).country_name@ == c by {
        lemma_country_index_spec(g, c);
        let m = country_index(g, c);
        assert(g.contains(g[m])) by {
            assert(g[m] == g[m]);
        }
        assert(g.to_multiset().count(g[m]) > 0);
        assert(r.to_multiset().count(g[m]) > 0);
        assert(r.contains(g[m]));
        let k = choose|k: int| 0 <= k < r.len() && r[k] == g[m];
        assert(r[k].country_name@ == c);
    }
}

/// Ranking is deterministic: any views the construction contract admits
/// for one input are equal, so repeated construction from the same records
/// yields identical views.
pub proof fn lemma_stats_deterministic(
    bans: Seq<LocatedBannedIp>,
    ips1: Seq<LocatedBannedIp>,
    ips2: Seq<LocatedBannedIp>,
    cs1: Seq<CountryBans>,
    cs2: Seq<CountryBans>,
)
    requires
        ips1 == located_model(bans),
        ips2 == located_model(bans),
        cs1 == countries_model(bans),
        cs2 == countries_model(bans),
    ensures
        ips1 == ips2,
        cs1 == cs2,
{
}

/// Counts attributed to a prefix never exceed those of the whole input.
pub proof fn lemma_country_total_prefix(bans: Seq<LocatedBannedIp>, name: Seq<char>, m: int)
    requires
        0 <= m <= bans.len(),
    ensures
        country_total(bans.take(m), name) <= country_total(bans, name),
    decreases bans.len() - m,
{
    if m < bans.len() {
        lemma_country_total_prefix(bans, name, m + 1);
        assert(bans.take(m + 1).drop_last() =~= bans.take(m));
        assert(bans.take(m + 1).last() == bans[m]);
    } else {
        assert(bans.take(m) =~= bans);
    }
}

} // verus!
