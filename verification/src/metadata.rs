//! Metadata of the geobr data sets: the geography names, the parsing of
//! release file names, and the choice of the file for a request.

use vstd::prelude::*;

use crate::json::{get, get_member, json_of, parse_json, Json};
use crate::text::{
    chars_eq, chars_of, has_prefix, has_suffix, push_str, string_of_chars, take_chars,
};

verus! {

// ---------------------------------------------------------------------------
// Geography names
// ---------------------------------------------------------------------------

/// Each geography name with the prefix of its parquet file names.
pub open spec fn prefix_table() -> Seq<(Seq<char>, Seq<char>)> {
    seq![
        ("country"@, "country"@),
        ("states"@, "states"@),
        ("regions"@, "regions"@),
        ("municipalities"@, "municipalities"@),
        ("municipal_seat"@, "municipalseats"@),
        ("meso_region"@, "mesoregions"@),
        ("micro_region"@, "microregions"@),
        ("intermediate_region"@, "intermediateregions"@),
        ("immediate_region"@, "immediateregions"@),
        ("biomes"@, "biomes"@),
        ("metro_area"@, "metroarea"@),
        ("urban_area"@, "urbanareas"@),
        ("amazonia_legal"@, "amazonialegal"@),
        ("semi_arid"@, "semiarid"@),
        ("census_tract"@, "censustracts"@),
        ("weighting_area"@, "weightingareas"@),
        ("statistical_grid"@, "statsgrid"@),
        ("indigenous_land"@, "indigenouslands"@),
        ("conservation_unit"@, "conservationunits"@),
        ("disaster_risk_area"@, "disasterriskareas"@),
        ("favelas"@, "favelas"@),
        ("quilombola_land"@, "quilombolalands"@),
        ("health_region"@, "healthregions"@),
        ("health_facility"@, "healthfacilities"@),
        ("schools"@, "schools"@),
        ("polling_place"@, "pollingplaces"@),
        ("pop_arrangement"@, "poparrangements"@),
        ("neighborhood"@, "neighborhoods"@),
    ]
}

/// The views of the pairs.
pub open spec fn pairs_view(v: Seq<(&'static str, &'static str)>) -> Seq<(Seq<char>, Seq<char>)> {
    v.map_values(|p: (&'static str, &'static str)| (p.0@, p.1@))
}

/// Map of geography name to the prefix used in parquet file names,
/// e.g. "states" to "states" ("states_2022_simplified.parquet").
pub fn geography_prefix() -> (r: &'static [(&'static str, &'static str)])
    ensures
        pairs_view(r@) == prefix_table(),
{
    let r: &'static [(&'static str, &'static str)] = &[
        ("country", "country"),
        ("states", "states"),
        ("regions", "regions"),
        ("municipalities", "municipalities"),
        ("municipal_seat", "municipalseats"),
        ("meso_region", "mesoregions"),
        ("micro_region", "microregions"),
        ("intermediate_region", "intermediateregions"),
        ("immediate_region", "immediateregions"),
        ("biomes", "biomes"),
        ("metro_area", "metroarea"),
        ("urban_area", "urbanareas"),
        ("amazonia_legal", "amazonialegal"),
        ("semi_arid", "semiarid"),
        ("census_tract", "censustracts"),
        ("weighting_area", "weightingareas"),
        ("statistical_grid", "statsgrid"),
        ("indigenous_land", "indigenouslands"),
        ("conservation_unit", "conservationunits"),
        ("disaster_risk_area", "disasterriskareas"),
        ("favelas", "favelas"),
        ("quilombola_land", "quilombolalands"),
        ("health_region", "healthregions"),
        ("health_facility", "healthfacilities"),
        ("schools", "schools"),
        ("polling_place", "pollingplaces"),
        ("pop_arrangement", "poparrangements"),
        ("neighborhood", "neighborhoods"),
    ];
    assert(pairs_view(r@) =~= prefix_table());
    r
}

/// The prefix of the first entry of `table` named `name`.
pub open spec fn lookup(table: Seq<(Seq<char>, Seq<char>)>, name: Seq<char>) -> Option<Seq<char>>
    decreases table.len(),
{
    if table.len() == 0 {
        None
    } else if table[0].0 == name {
        Some(table[0].1)
    } else {
        lookup(table.subrange(1, table.len() as int), name)
    }
}

proof fn lemma_lookup_skip(table: Seq<(Seq<char>, Seq<char>)>, name: Seq<char>, i: int)
    requires
        0 <= i <= table.len(),
        forall|j: int| 0 <= j < i ==> table[j].0 != name,
    ensures
        lookup(table, name) == lookup(table.subrange(i, table.len() as int), name),
    decreases i,
{
    if i > 0 {
        let rest = table.subrange(1, table.len() as int);
        lemma_lookup_skip(rest, name, i - 1);
        assert(rest.subrange(i - 1, rest.len() as int) =~= table.subrange(i, table.len() as int));
    } else {
        assert(table.subrange(0, table.len() as int) =~= table);
    }
}

/// The file-name prefix of the geography called `name`, if the table has it.
pub fn prefix_for(name: &str) -> (r: Option<&'static str>)
    ensures
        match lookup(prefix_table(), name@) {
            Some(p) => r matches Some(q) && q@ == p,
            None => r is None,
        },
{
    let table = geography_prefix();
    let wanted = chars_of(name);
    let mut i: usize = 0;
    while i < table.len()
        invariant
            pairs_view(table@) == prefix_table(),
            wanted@ == name@,
            i <= table.len(),
            forall|j: int| 0 <= j < i ==> prefix_table()[j].0 != name@,
        decreases table.len() - i,
    {
        let (n, p) = table[i];
        let cand = chars_of(n);
        assert(prefix_table()[i as int] == (n@, p@));
        if chars_eq(cand.as_slice(), wanted.as_slice()) {
            proof {
                lemma_lookup_skip(prefix_table(), name@, i as int);
            }
            return Some(p);
        }
        i = i + 1;
    }
    proof {
        lemma_lookup_skip(prefix_table(), name@, i as int);
    }
    None
}

/// The key that tells the geography names apart: length, first and last character.
spec fn name_key(s: Seq<char>) -> (nat, char, char) {
    (s.len(), s[0], s[s.len() - 1])
}

/// No two entries of the geography table have the same name.
pub proof fn lemma_geography_names_distinct()
    ensures
        forall|i: int, j: int|
            0 <= i < j < prefix_table().len() ==> prefix_table()[i].0 != prefix_table()[j].0,
{
    reveal_strlit("country");
    reveal_strlit("states");
    reveal_strlit("regions");
    reveal_strlit("municipalities");
    reveal_strlit("municipal_seat");
    reveal_strlit("meso_region");
    reveal_strlit("micro_region");
    reveal_strlit("intermediate_region");
    reveal_strlit("immediate_region");
    reveal_strlit("biomes");
    reveal_strlit("metro_area");
    reveal_strlit("urban_area");
    reveal_strlit("amazonia_legal");
    reveal_strlit("semi_arid");
    reveal_strlit("census_tract");
    reveal_strlit("weighting_area");
    reveal_strlit("statistical_grid");
    reveal_strlit("indigenous_land");
    reveal_strlit("conservation_unit");
    reveal_strlit("disaster_risk_area");
    reveal_strlit("favelas");
    reveal_strlit("quilombola_land");
    reveal_strlit("health_region");
    reveal_strlit("health_facility");
    reveal_strlit("schools");
    reveal_strlit("polling_place");
    reveal_strlit("pop_arrangement");
    reveal_strlit("neighborhood");
    let t = prefix_table();
    assert forall|i: int, j: int| 0 <= i < j < t.len() implies t[i].0 != t[j].0 by {
        if t[i].0 == t[j].0 {
            assert(name_key(t[i].0) == name_key(t[j].0));
        }
    }
}

// ---------------------------------------------------------------------------
// File names
// ---------------------------------------------------------------------------

/// Parsed metadata entry for a dataset.
#[derive(Debug, Clone)]
pub struct GeoMeta {
    pub file_name: String,
    pub geography: String,
    pub year: u32,
    pub simplified: bool,
}

/// The mathematical view of a [`GeoMeta`].
pub struct GeoMetaView {
    pub file_name: Seq<char>,
    pub geography: Seq<char>,
    pub year: u32,
    pub simplified: bool,
}

impl View for GeoMeta {
    type V = GeoMetaView;

    open spec fn view(&self) -> GeoMetaView {
        GeoMetaView {
            file_name: self.file_name@,
            geography: self.geography@,
            year: self.year,
            simplified: self.simplified,
        }
    }
}

pub open spec fn is_digit(c: char) -> bool {
    '0' <= c && c <= '9'
}

pub open spec fn digit_value(c: char) -> int {
    c as int - '0' as int
}

/// The number written by the four characters from `i` on.
pub open spec fn four_digits(s: Seq<char>, i: int) -> int {
    1000 * digit_value(s[i]) + 100 * digit_value(s[i + 1]) + 10 * digit_value(s[i + 2])
        + digit_value(s[i + 3])
}

/// Whether the four characters from `i` on are a year from 1870 to 2100.
///
/// Four characters that `u32::from_str` accepts are four ASCII digits, or `+`
/// and three digits; the latter are below 1000 and are never a year here.
pub open spec fn year_at(s: Seq<char>, i: int) -> bool {
    &&& 0 <= i
    &&& i + 4 <= s.len()
    &&& is_digit(s[i]) && is_digit(s[i + 1]) && is_digit(s[i + 2]) && is_digit(s[i + 3])
    &&& 1870 <= four_digits(s, i) <= 2100
}

fn digit_of_char(c: char) -> (d: u32)
    requires
        is_digit(c),
    ensures
        d == digit_value(c),
{
    (c as u32) - ('0' as u32)
}

fn is_digit_char(c: char) -> (b: bool)
    ensures
        b == is_digit(c),
{
    '0' <= c && c <= '9'
}

/// The year written at the first place of `s` that holds one.
pub open spec fn first_year(s: Seq<char>) -> Option<u32> {
    if exists|i: int| year_at(s, i) {
        let i = choose|i: int| year_at(s, i) && forall|j: int| 0 <= j < i ==> !year_at(s, j);
        Some(four_digits(s, i) as u32)
    } else {
        None
    }
}

/// Extract the first 4-digit year (from 1870 to 2100) from a string.
pub fn extract_year(s: &str) -> (r: Option<u32>)
    ensures
        r == first_year(s@),
{
    let chars = chars_of(s);
    let mut i: usize = 0;
    while i < chars.len() && chars.len() - i >= 4
        invariant
            chars@ == s@,
            forall|j: int| 0 <= j < i ==> !year_at(s@, j),
        decreases chars.len() - i,
    {
        let (c0, c1, c2, c3) = (chars[i], chars[i + 1], chars[i + 2], chars[i + 3]);
        if is_digit_char(c0) && is_digit_char(c1) && is_digit_char(c2) && is_digit_char(c3) {
            let y = 1000 * digit_of_char(c0) + 100 * digit_of_char(c1) + 10 * digit_of_char(c2)
                + digit_of_char(c3);
            if 1870 <= y && y <= 2100 {
                proof {
                    let k = i as int;
                    assert(year_at(s@, k));
                    let c = choose|i: int| year_at(s@, i) && forall|j: int| 0 <= j < i ==> !year_at(s@, j);
                    assert(year_at(s@, k) && forall|j: int| 0 <= j < k ==> !year_at(s@, j));
                    assert(c == k) by {
                        if c < k {
                        } else if c > k {
                        }
                    }
                }
                return Some(y);
            }
        }
        i = i + 1;
    }
    assert forall|j: int| !year_at(s@, j) by {
        if 0 <= j && j < i {
        }
    }
    None
}

/// The metadata that a release file name stands for: the name must end in
/// `.parquet`; a stem that ends in `_simplified` marks a simplified file and
/// loses that suffix; the rest is the geography, which must hold a year.
#[verifier::opaque]
pub open spec fn parse_filename_spec(f: Seq<char>) -> Option<GeoMetaView> {
    if !".parquet"@.is_suffix_of(f) {
        None
    } else {
        let stem = f.subrange(0, f.len() - ".parquet"@.len());
        let simplified = "_simplified"@.is_suffix_of(stem);
        let geography = if simplified {
            stem.subrange(0, stem.len() - "_simplified"@.len())
        } else {
            stem
        };
        match first_year(geography) {
            Some(year) => Some(GeoMetaView { file_name: f, geography, year, simplified }),
            None => None,
        }
    }
}

/// Parse a filename like "states_2022_simplified.parquet" into metadata.
pub fn parse_filename(fname: &str) -> (r: Option<GeoMeta>)
    ensures
        match parse_filename_spec(fname@) {
            Some(v) => r matches Some(m) && m@ == v,
            None => r is None,
        },
{
    reveal(parse_filename_spec);
    let f = chars_of(fname);
    let ext = chars_of(".parquet");
    if !has_suffix(f.as_slice(), ext.as_slice()) {
        return None;
    }
    let stem = take_chars(f.as_slice(), f.len() - ext.len());
    let suffix = chars_of("_simplified");
    let simplified = has_suffix(stem.as_slice(), suffix.as_slice());
    let geo = if simplified {
        take_chars(stem.as_slice(), stem.len() - suffix.len())
    } else {
        stem
    };
    let geography = string_of_chars(geo.as_slice());
    let year = match extract_year(geography.as_str()) {
        Some(y) => y,
        None => return None,
    };
    Some(GeoMeta { file_name: String::from_str(fname), geography, year, simplified })
}

// ---------------------------------------------------------------------------
// Choosing a file
// ---------------------------------------------------------------------------

/// Whether `m` is a file of the geography whose file names start with
/// `prefix`, simplified or not as asked.
pub open spec fn is_candidate(m: GeoMeta, prefix: Seq<char>, simplified: bool) -> bool {
    m.simplified == simplified && prefix.is_prefix_of(m.geography@)
}

/// How far apart two years are.
pub open spec fn distance(a: u32, b: u32) -> int {
    if a >= b {
        a - b
    } else {
        b - a
    }
}

/// Whether some entry before `n` is a candidate.
pub open spec fn has_candidate(meta: Seq<GeoMeta>, n: int, prefix: Seq<char>, simplified: bool) -> bool {
    exists|j: int| 0 <= j < n && #[trigger] is_candidate(meta[j], prefix, simplified)
}

/// Whether entry `i` is the pick among the entries before `n`: a candidate
/// that, when a year is asked, is the first of the closest to it, and
/// otherwise is the last of the latest.
pub open spec fn is_pick_within(
    meta: Seq<GeoMeta>,
    n: int,
    prefix: Seq<char>,
    year: Option<u32>,
    simplified: bool,
    i: int,
) -> bool {
    &&& 0 <= i < n
    &&& is_candidate(meta[i], prefix, simplified)
    &&& match year {
        Some(y) => forall|j: int|
            0 <= j < n && #[trigger] is_candidate(meta[j], prefix, simplified) ==> distance(
                meta[i].year,
                y,
            ) <= distance(meta[j].year, y) && (j < i ==> distance(meta[i].year, y) < distance(
                meta[j].year,
                y,
            )),
        None => forall|j: int|
            0 <= j < n && #[trigger] is_candidate(meta[j], prefix, simplified) ==> meta[j].year
                <= meta[i].year && (j > i ==> meta[j].year < meta[i].year),
    }
}

pub open spec fn bool_text(b: bool) -> Seq<char> {
    if b {
        "true"@
    } else {
        "false"@
    }
}

pub open spec fn unknown_geography_message(geography: Seq<char>) -> Seq<char> {
    "unknown geography: '"@ + geography + "'"@
}

pub open spec fn no_data_message(geography: Seq<char>, simplified: bool) -> Seq<char> {
    "no data found for geography '"@ + geography + "' (simplified="@ + bool_text(simplified)
        + ")"@
}

fn unknown_geography(geography: &str) -> (m: String)
    ensures
        m@ == unknown_geography_message(geography@),
{
    let mut v: Vec<char> = Vec::new();
    push_str(&mut v, "unknown geography: '");
    push_str(&mut v, geography);
    push_str(&mut v, "'");
    string_of_chars(v.as_slice())
}

fn no_data(geography: &str, simplified: bool) -> (m: String)
    ensures
        m@ == no_data_message(geography@, simplified),
{
    let mut v: Vec<char> = Vec::new();
    push_str(&mut v, "no data found for geography '");
    push_str(&mut v, geography);
    push_str(&mut v, "' (simplified=");
    push_str(&mut v, if simplified { "true" } else { "false" });
    push_str(&mut v, ")");
    string_of_chars(v.as_slice())
}

fn distance_exec(a: u32, b: u32) -> (d: u32)
    ensures
        d == distance(a, b),
{
    if a >= b {
        a - b
    } else {
        b - a
    }
}

/// Find the best matching parquet file for a geography and year.
///
/// The candidates are the entries that are simplified as asked and whose
/// geography starts with the file-name prefix of `geography`. With a year,
/// the pick is the first candidate of that year, or else the first of those
/// closest to it; without one, the last of the latest candidates.
pub fn find_file<'a>(
    metadata: &'a [GeoMeta],
    geography: &str,
    year: Option<u32>,
    simplified: bool,
) -> (r: Result<&'a GeoMeta, String>)
    ensures
        match lookup(prefix_table(), geography@) {
            None => r matches Err(e) && e@ == unknown_geography_message(geography@),
            Some(p) => if has_candidate(metadata@, metadata@.len() as int, p, simplified) {
                r matches Ok(m) && exists|i: int|
                    is_pick_within(metadata@, metadata@.len() as int, p, year, simplified, i)
                        && *m == #[trigger] metadata@[i]
            } else {
                r matches Err(e) && e@ == no_data_message(geography@, simplified)
            },
        },
        // The pick is a candidate; with a year that some candidate has, the
        // pick has it; with a year, no candidate is nearer to it than the
        // pick; without a year, no candidate is later than the pick.
        r matches Ok(m) ==> {
            let p = lookup(prefix_table(), geography@)->Some_0;
            &&& is_candidate(*m, p, simplified)
            &&& (year matches Some(y) ==> ((exists|j: int|
                0 <= j < metadata@.len() && #[trigger] is_candidate(metadata@[j], p, simplified)
                    && metadata@[j].year == y) ==> m.year == y))
            &&& (year matches Some(y) ==> forall|j: int|
                0 <= j < metadata@.len() && #[trigger] is_candidate(metadata@[j], p, simplified)
                    ==> vstd::math::abs(m.year - y) <= vstd::math::abs(metadata@[j].year - y))
            &&& (year is None ==> forall|j: int|
                0 <= j < metadata@.len() && #[trigger] is_candidate(metadata@[j], p, simplified)
                    ==> metadata@[j].year <= m.year)
        },
{
    let prefix = match prefix_for(geography) {
        Some(p) => p,
        None => return Err(unknown_geography(geography)),
    };
    let ghost p = prefix@;
    let wanted = chars_of(prefix);
    let mut best: Option<usize> = None;
    let mut i: usize = 0;
    while i < metadata.len()
        invariant
            wanted@ == p,
            i <= metadata.len(),
            match best {
                None => !has_candidate(metadata@, i as int, p, simplified),
                Some(b) => is_pick_within(metadata@, i as int, p, year, simplified, b as int),
            },
        decreases metadata.len() - i,
    {
        let m = &metadata[i];
        let geo = chars_of(m.geography.as_str());
        let cand = m.simplified == simplified && has_prefix(geo.as_slice(), wanted.as_slice());
        assert(cand == is_candidate(metadata@[i as int], p, simplified));
        if cand {
            let take = match best {
                None => true,
                Some(b) => match year {
                    Some(y) => distance_exec(m.year, y) < distance_exec(metadata[b].year, y),
                    None => m.year >= metadata[b].year,
                },
            };
            if take {
                best = Some(i);
            }
        }
        proof {
            let n = (i + 1) as int;
            match best {
                None => {
                    assert forall|j: int| 0 <= j < n implies !is_candidate(
                        metadata@[j],
                        p,
                        simplified,
                    ) by {
                        if j < i {
                            assert(!has_candidate(metadata@, i as int, p, simplified));
                        }
                    }
                },
                Some(b) => {
                    assert(is_pick_within(metadata@, n, p, year, simplified, b as int));
                },
            }
        }
        i = i + 1;
    }
    match best {
        Some(b) => {
            proof {
                assert(has_candidate(metadata@, metadata@.len() as int, p, simplified));
                if let Some(y) = year {
                    assert forall|j: int|
                        0 <= j < metadata@.len() && #[trigger] is_candidate(
                            metadata@[j],
                            p,
                            simplified,
                        ) implies vstd::math::abs(metadata@[b as int].year - y)
                        <= vstd::math::abs(metadata@[j].year - y) by {
                        lemma_pick_is_closest(
                            metadata@,
                            metadata@.len() as int,
                            p,
                            y,
                            simplified,
                            b as int,
                            j,
                        );
                    }
                }
            }
            Ok(&metadata[b])
        },
        None => Err(no_data(geography, simplified)),
    }
}

// ---------------------------------------------------------------------------
// The release listing
// ---------------------------------------------------------------------------

/// The views of optional strings.
pub open spec fn names_view(v: Seq<Option<String>>) -> Seq<Option<Seq<char>>> {
    v.map_values(
        |o: Option<String>|
            match o {
                Some(s) => Some(s@),
                None => None,
            },
    )
}

/// The `name` of one asset of a release: present when the asset is an object
/// whose `name` member is a string.
pub open spec fn asset_name(asset: Json) -> Option<Seq<char>> {
    match get(asset, "name"@) {
        Some(Json::Str(s)) => Some(s@),
        _ => None,
    }
}

/// The names of the assets of a release: present when the release is an
/// object whose `assets` member is an array.
pub open spec fn release_names(release: Json) -> Option<Seq<Option<Seq<char>>>> {
    match get(release, "assets"@) {
        Some(Json::Array(items)) => Some(items@.map_values(|a: Json| asset_name(a))),
        _ => None,
    }
}

/// The name of each asset of a release, in order (`None` for an asset without
/// a string `name`); `None` when the release has no array of assets.
pub fn asset_names(release: &Json) -> (r: Option<Vec<Option<String>>>)
    ensures
        match release_names(*release) {
            Some(names) => r matches Some(v) && names_view(v@) == names,
            None => r is None,
        },
{
    let items = match get_member(release, "assets") {
        Some(Json::Array(items)) => items,
        _ => return None,
    };
    let ghost want = items@.map_values(|a: Json| asset_name(a));
    let mut names: Vec<Option<String>> = Vec::new();
    let mut i: usize = 0;
    while i < items.len()
        invariant
            want == items@.map_values(|a: Json| asset_name(a)),
            i <= items.len(),
            names_view(names@) == want.subrange(0, i as int),
        decreases items.len() - i,
    {
        let ghost before = names@;
        let name = match get_member(&items[i], "name") {
            Some(Json::Str(s)) => Some(s.clone()),
            _ => None,
        };
        names.push(name);
        assert(names_view(names@) =~= want.subrange(0, i as int + 1)) by {
            assert(names@ == before.push(name));
            assert(names_view(names@) =~= names_view(before).push(asset_name(items@[i as int])));
        }
        i = i + 1;
    }
    assert(want.subrange(0, want.len() as int) =~= want);
    Some(names)
}

/// The metadata of the parquet files among the asset names, in order.
pub open spec fn release_entries(names: Seq<Option<Seq<char>>>) -> Seq<GeoMetaView>
    decreases names.len(),
{
    if names.len() == 0 {
        seq![]
    } else {
        release_entries(names.subrange(0, names.len() - 1)) + match names.last() {
            Some(n) => match parse_filename_spec(n) {
                Some(m) => seq![m],
                None => seq![],
            },
            None => seq![],
        }
    }
}

/// The views of the entries.
pub open spec fn metas_view(v: Seq<GeoMeta>) -> Seq<GeoMetaView> {
    v.map_values(|m: GeoMeta| m@)
}

fn message(s: &str) -> (m: String)
    ensures
        m@ == s@,
{
    String::from_str(s)
}

/// The entry that one asset name contributes.
pub open spec fn entry_of(name: Option<Seq<char>>) -> Seq<GeoMetaView> {
    match name {
        Some(n) => match parse_filename_spec(n) {
            Some(m) => seq![m],
            None => seq![],
        },
        None => seq![],
    }
}

proof fn lemma_release_entries_step(all: Seq<Option<Seq<char>>>, i: int)
    requires
        0 <= i < all.len(),
    ensures
        release_entries(all.subrange(0, i + 1)) == release_entries(all.subrange(0, i)) + entry_of(
            all[i],
        ),
{
    let cur = all.subrange(0, i + 1);
    assert(cur.subrange(0, i) =~= all.subrange(0, i));
}

proof fn lemma_metas_view_push(v: Seq<GeoMeta>, m: GeoMeta)
    ensures
        metas_view(v.push(m)) == metas_view(v) + seq![m@],
{
    assert(metas_view(v.push(m)) =~= metas_view(v) + seq![m@]);
}

/// The parquet entries among the names, in order.
fn entries_from_names(names: &Vec<Option<String>>) -> (entries: Vec<GeoMeta>)
    ensures
        metas_view(entries@) == release_entries(names_view(names@)),
{
    let ghost all = names_view(names@);
    let mut entries: Vec<GeoMeta> = Vec::new();
    let mut i: usize = 0;
    assert(metas_view(entries@) =~= release_entries(all.subrange(0, 0)));
    while i < names.len()
        invariant
            all == names_view(names@),
            i <= names.len(),
            metas_view(entries@) == release_entries(all.subrange(0, i as int)),
        decreases names.len() - i,
    {
        proof {
            lemma_release_entries_step(all, i as int);
        }
        let ghost before = entries@;
        match &names[i] {
            Some(name) => {
                match parse_filename(name.as_str()) {
                    Some(meta) => {
                        entries.push(meta);
                        proof {
                            lemma_metas_view_push(before, meta);
                        }
                    },
                    None => {
                        assert(entry_of(all[i as int]) =~= seq![]);
                        assert(metas_view(entries@) =~= metas_view(before) + entry_of(all[i as int]));
                    },
                }
            },
            None => {
                assert(metas_view(entries@) =~= metas_view(before) + entry_of(all[i as int]));
            },
        }
        i = i + 1;
    }
    assert(all.subrange(0, all.len() as int) =~= all);
    entries
}

/// Parse the JSON text of the geobr release into the list of its parquet files.
pub fn parse_release_metadata(body: &str) -> (r: Result<Vec<GeoMeta>, String>)
    ensures
        match json_of(body@) {
            Err(e) => r matches Err(m) && m@ == "cannot parse geobr release JSON: "@ + e,
            Ok(release) => match release_names(release) {
                None => r matches Err(m) && m@ == "no assets in geobr release"@,
                Some(names) => if release_entries(names).len() == 0 {
                    r matches Err(m) && m@ == "no parquet files found in geobr release"@
                } else {
                    r matches Ok(v) && metas_view(v@) == release_entries(names)
                },
            },
        },
{
    let release = match parse_json(body) {
        Ok(j) => j,
        Err(e) => {
            let mut v: Vec<char> = Vec::new();
            push_str(&mut v, "cannot parse geobr release JSON: ");
            push_str(&mut v, e.as_str());
            return Err(string_of_chars(v.as_slice()));
        },
    };
    let names = match asset_names(&release) {
        Some(names) => names,
        None => return Err(message("no assets in geobr release")),
    };
    let entries = entries_from_names(&names);
    if entries.len() == 0 {
        return Err(message("no parquet files found in geobr release"));
    }
    Ok(entries)
}

// ---------------------------------------------------------------------------
// Available years
// ---------------------------------------------------------------------------

/// The file-name prefix whose years are listed for `geography`: the prefix
/// of the table's entry of that name, or the name itself.
pub open spec fn years_prefix(geography: Seq<char>) -> Seq<char> {
    match lookup(prefix_table(), geography) {
        Some(p) => p,
        None => geography,
    }
}

/// Whether `m` is a simplified file whose geography starts with `prefix`.
pub open spec fn is_listed(m: GeoMeta, prefix: Seq<char>) -> bool {
    m.simplified && prefix.is_prefix_of(m.geography@)
}

pub open spec fn strictly_increasing(s: Seq<u32>) -> bool {
    forall|i: int, j: int| 0 <= i < j < s.len() ==> s[i] < s[j]
}

/// Puts `y` into the strictly increasing `v`, unless it is there already.
#[verifier::spinoff_prover]
fn insert_sorted(v: &mut Vec<u32>, y: u32)
    requires
        strictly_increasing(old(v)@),
    ensures
        strictly_increasing(final(v)@),
        forall|x: u32| final(v)@.contains(x) <==> (old(v)@.contains(x) || x == y),
{
    let mut i: usize = 0;
    while i < v.len() && v[i] < y
        invariant
            v@ == old(v)@,
            i <= v.len(),
            forall|j: int| 0 <= j < i ==> v@[j] < y,
        decreases v.len() - i,
    {
        i = i + 1;
    }
    let ghost before = v@;
    if i < v.len() && v[i] == y {
        assert(v@[i as int] == y);
        assert(before.contains(y));
    } else {
        v.insert(i, y);
        assert(v@ == before.insert(i as int, y));
        assert forall|x: u32| v@.contains(x) implies (before.contains(x) || x == y) by {
            let k = choose|k: int| 0 <= k < v@.len() && v@[k] == x;
            if k < i {
                assert(before[k] == x);
            } else if k > i {
                assert(before[k - 1] == x);
            }
        }
        assert forall|x: u32| (before.contains(x) || x == y) implies v@.contains(x) by {
            if x == y {
                assert(v@[i as int] == y);
            } else {
                let k = choose|k: int| 0 <= k < before.len() && before[k] == x;
                if k < i {
                    assert(v@[k] == x);
                } else {
                    assert(v@[k + 1] == x);
                }
            }
        }
    }
    assert(before == old(v)@);
}

/// The years of the simplified files of a geography, in increasing order,
/// each once.
pub fn years_for_geography(metadata: &[GeoMeta], geography: &str) -> (r: Vec<u32>)
    ensures
        strictly_increasing(r@),
        forall|y: u32|
            r@.contains(y) <==> exists|k: int|
                0 <= k < metadata@.len() && #[trigger] is_listed(
                    metadata@[k],
                    years_prefix(geography@),
                ) && metadata@[k].year == y,
{
    let prefix = match prefix_for(geography) {
        Some(p) => chars_of(p),
        None => chars_of(geography),
    };
    let ghost p = years_prefix(geography@);
    let mut years: Vec<u32> = Vec::new();
    let mut i: usize = 0;
    while i < metadata.len()
        invariant
            prefix@ == p,
            i <= metadata.len(),
            strictly_increasing(years@),
            forall|y: u32|
                years@.contains(y) <==> exists|k: int|
                    0 <= k < i && #[trigger] is_listed(metadata@[k], p) && metadata@[k].year == y,
        decreases metadata.len() - i,
    {
        let m = &metadata[i];
        let geo = chars_of(m.geography.as_str());
        let listed = m.simplified && has_prefix(geo.as_slice(), prefix.as_slice());
        let ghost before = years@;
        if listed {
            insert_sorted(&mut years, m.year);
        }
        assert forall|y: u32|
            years@.contains(y) implies exists|k: int|
                0 <= k < i + 1 && #[trigger] is_listed(metadata@[k], p) && metadata@[k].year
                    == y by {
            if before.contains(y) {
                let k = choose|k: int|
                    0 <= k < i && #[trigger] is_listed(metadata@[k], p) && metadata@[k].year == y;
                assert(0 <= k < i + 1 && is_listed(metadata@[k], p) && metadata@[k].year == y);
            } else {
                assert(is_listed(metadata@[i as int], p) && metadata@[i as int].year == y);
            }
        }
        assert forall|y: u32|
            (exists|k: int|
                0 <= k < i + 1 && #[trigger] is_listed(metadata@[k], p) && metadata@[k].year
                    == y) implies years@.contains(y) by {
            let k = choose|k: int|
                0 <= k < i + 1 && #[trigger] is_listed(metadata@[k], p) && metadata@[k].year == y;
            if k < i {
                assert(before.contains(y));
            }
        }
        i = i + 1;
    }
    years
}

/// The geography names of the table, in order.
pub fn dataset_names() -> (r: Vec<&'static str>)
    ensures
        r@.map_values(|s: &'static str| s@) == prefix_table().map_values(
            |p: (Seq<char>, Seq<char>)| p.0,
        ),
{
    let table = geography_prefix();
    let mut names: Vec<&'static str> = Vec::new();
    let mut i: usize = 0;
    while i < table.len()
        invariant
            pairs_view(table@) == prefix_table(),
            i <= table.len(),
            names@.len() == i,
            forall|j: int| 0 <= j < i ==> names@[j]@ == prefix_table()[j].0,
        decreases table.len() - i,
    {
        let (n, _) = table[i];
        assert(prefix_table()[i as int].0 == n@);
        names.push(n);
        i = i + 1;
    }
    assert(names@.map_values(|s: &'static str| s@) =~= prefix_table().map_values(
        |p: (Seq<char>, Seq<char>)| p.0,
    ));
    names
}

// ---------------------------------------------------------------------------
// Downloads
// ---------------------------------------------------------------------------

/// Where the release files are published.
pub open spec fn release_base() -> Seq<char> {
    "https://github.com/ipea/geobr_prep_data/releases/download/v2.0.0"@
}

/// The IPEA mirror of the release files.
pub open spec fn mirror_base() -> Seq<char> {
    "https://www.ipea.gov.br/geobr/data_v2.0.0"@
}

/// What a download does next.
pub enum DownloadAction {
    /// Fetch this URL into the destination.
    Fetch(String),
    /// Stop, with this result.
    Finish(Result<(), String>),
}

fn url_of(base: &str, file_name: &str) -> (u: String)
    ensures
        u@ == base@ + "/"@ + file_name@,
{
    let mut v: Vec<char> = Vec::new();
    push_str(&mut v, base);
    push_str(&mut v, "/");
    push_str(&mut v, file_name);
    string_of_chars(v.as_slice())
}

/// The first step of downloading a release file: fetch it from the GitHub release.
pub fn download_begin(file_name: &str) -> (a: DownloadAction)
    ensures
        a matches DownloadAction::Fetch(u) && u@ == release_base() + "/"@ + file_name@,
{
    DownloadAction::Fetch(url_of("https://github.com/ipea/geobr_prep_data/releases/download/v2.0.0", file_name))
}

/// The step after fetch number `attempt` (0 for GitHub, 1 for the mirror)
/// ended with `outcome`: a success finishes; a failure on GitHub falls back
/// to the IPEA mirror; a failure on the mirror finishes with its error.
pub fn download_after(file_name: &str, attempt: u32, outcome: Result<(), String>) -> (a: DownloadAction)
    requires
        attempt <= 1,
    ensures
        match outcome {
            Ok(()) => a matches DownloadAction::Finish(r) && r is Ok,
            Err(e) => if attempt == 0 {
                a matches DownloadAction::Fetch(u) && u@ == mirror_base() + "/"@ + file_name@
            } else {
                a matches DownloadAction::Finish(r) && r matches Err(m) && m@ == "download failed for "@
                    + file_name@ + ": "@ + e@
            },
        },
{
    match outcome {
        Ok(()) => DownloadAction::Finish(Ok(())),
        Err(e) => if attempt == 0 {
            DownloadAction::Fetch(url_of("https://www.ipea.gov.br/geobr/data_v2.0.0", file_name))
        } else {
            let mut v: Vec<char> = Vec::new();
            push_str(&mut v, "download failed for ");
            push_str(&mut v, file_name);
            push_str(&mut v, ": ");
            push_str(&mut v, e.as_str());
            DownloadAction::Finish(Err(string_of_chars(v.as_slice())))
        },
    }
}

/// Whether a cached copy of a release file can be used: it exists and is not empty.
pub fn is_cache_hit(cached_len: Option<u64>) -> (b: bool)
    ensures
        b == (cached_len matches Some(n) && n > 0),
{
    match cached_len {
        Some(n) => n > 0,
        None => false,
    }
}

// ---------------------------------------------------------------------------
// Laws
// ---------------------------------------------------------------------------

/// Every geography of the table is found by its name, with its own prefix.
pub proof fn lemma_every_geography_found(i: int)
    requires
        0 <= i < prefix_table().len(),
    ensures
        lookup(prefix_table(), prefix_table()[i].0) == Some(prefix_table()[i].1),
{
    let t = prefix_table();
    lemma_geography_names_distinct();
    lemma_lookup_skip(t, t[i].0, i);
    assert(t.subrange(i, t.len() as int)[0] == t[i]);
}

proof fn lemma_first_place(s: Seq<char>, i: int)
    requires
        year_at(s, i),
    ensures
        exists|k: int| year_at(s, k) && forall|j: int| 0 <= j < k ==> !year_at(s, j),
    decreases i,
{
    if exists|j: int| 0 <= j < i && year_at(s, j) {
        let j = choose|j: int| 0 <= j < i && year_at(s, j);
        lemma_first_place(s, j);
    } else {
        assert(forall|j: int| 0 <= j < i ==> !year_at(s, j));
    }
}

proof fn lemma_first_year(s: Seq<char>)
    ensures
        first_year(s) matches Some(y) ==> 1870 <= y <= 2100 && exists|i: int|
            year_at(s, i) && four_digits(s, i) == y,
{
    if exists|i: int| year_at(s, i) {
        let w = choose|i: int| year_at(s, i);
        lemma_first_place(s, w);
        let i = choose|i: int| year_at(s, i) && forall|j: int| 0 <= j < i ==> !year_at(s, j);
        assert(year_at(s, i));
        assert(first_year(s) == Some(four_digits(s, i) as u32));
    }
}

/// A file name that parses keeps its name and ends in `.parquet`, and its
/// year is one from 1870 to 2100, written in four digits at the first place
/// of its geography that holds such a year.
pub proof fn lemma_parsed_filename(f: Seq<char>)
    ensures
        parse_filename_spec(f) matches Some(m) ==> {
            &&& m.file_name == f
            &&& ".parquet"@.is_suffix_of(f)
            &&& 1870 <= m.year <= 2100
            &&& exists|i: int|
                year_at(m.geography, i) && four_digits(m.geography, i) == m.year && forall|j: int|
                    0 <= j < i ==> !year_at(m.geography, j)
        },
{
    reveal(parse_filename_spec);
    if let Some(m) = parse_filename_spec(f) {
        lemma_first_year(m.geography);
        let g = m.geography;
        let w = choose|i: int| year_at(g, i);
        lemma_first_place(g, w);
        let i = choose|i: int| year_at(g, i) && forall|j: int| 0 <= j < i ==> !year_at(g, j);
        assert(year_at(g, i) && four_digits(g, i) == m.year);
    }
}

/// The years listed for a geography of the table are those of the files named
/// with the table's prefix for it; a name outside the table stands for itself.
pub proof fn lemma_years_prefix(name: Seq<char>)
    ensures
        forall|i: int|
            0 <= i < prefix_table().len() && #[trigger] prefix_table()[i].0 == name ==> years_prefix(
                name,
            ) == prefix_table()[i].1,
        (forall|i: int| 0 <= i < prefix_table().len() ==> #[trigger] prefix_table()[i].0 != name)
            ==> years_prefix(name) == name,
{
    let t = prefix_table();
    assert forall|i: int| 0 <= i < t.len() && #[trigger] t[i].0 == name implies years_prefix(name)
        == t[i].1 by {
        lemma_every_geography_found(i);
    }
    if forall|i: int| 0 <= i < t.len() ==> #[trigger] t[i].0 != name {
        lemma_lookup_skip(t, name, t.len() as int);
    }
}

/// With a year asked, the pick is no farther from that year than any other
/// candidate, and strictly nearer than every candidate before it.
pub proof fn lemma_pick_is_closest(
    meta: Seq<GeoMeta>,
    n: int,
    prefix: Seq<char>,
    year: u32,
    simplified: bool,
    i: int,
    j: int,
)
    requires
        is_pick_within(meta, n, prefix, Some(year), simplified, i),
        0 <= j < n,
        is_candidate(meta[j], prefix, simplified),
    ensures
        vstd::math::abs(meta[i].year - year) <= vstd::math::abs(meta[j].year - year),
        j < i ==> vstd::math::abs(meta[i].year - year) < vstd::math::abs(meta[j].year - year),
{
}

/// Without a year, the pick is no earlier than any other candidate, and
/// later than every candidate after it: the last of the latest.
pub proof fn lemma_pick_is_latest(
    meta: Seq<GeoMeta>,
    n: int,
    prefix: Seq<char>,
    simplified: bool,
    i: int,
    j: int,
)
    requires
        is_pick_within(meta, n, prefix, None, simplified, i),
        0 <= j < n,
        is_candidate(meta[j], prefix, simplified),
    ensures
        meta[j].year <= meta[i].year,
        i < j ==> meta[j].year < meta[i].year,
{
}

/// A geography that holds a year, followed by `_simplified.parquet`, or by
/// `.parquet` when it does not itself end in `_simplified`, is read back as
/// that geography, simplified or not, with the year written at the first place
/// of the geography that holds one.
pub proof fn lemma_filename_roundtrip(geography: Seq<char>, i: int)
    requires
        year_at(geography, i),
        forall|j: int| 0 <= j < i ==> !year_at(geography, j),
    ensures
        parse_filename_spec(geography + "_simplified.parquet"@) == Some(
            GeoMetaView {
                file_name: geography + "_simplified.parquet"@,
                geography,
                year: four_digits(geography, i) as u32,
                simplified: true,
            },
        ),
        !"_simplified"@.is_suffix_of(geography) ==> parse_filename_spec(geography + ".parquet"@)
            == Some(
            GeoMetaView {
                file_name: geography + ".parquet"@,
                geography,
                year: four_digits(geography, i) as u32,
                simplified: false,
            },
        ),
{
    reveal(parse_filename_spec);
    reveal_strlit("_simplified.parquet");
    reveal_strlit("_simplified");
    reveal_strlit(".parquet");
    let c = choose|k: int| year_at(geography, k) && forall|j: int| 0 <= j < k ==> !year_at(geography, j);
    assert(year_at(geography, i) && forall|j: int| 0 <= j < i ==> !year_at(geography, j));
    assert(c == i) by {
        if c < i {
        } else if c > i {
        }
    }
    assert(first_year(geography) == Some(four_digits(geography, i) as u32));
    let f = geography + "_simplified.parquet"@;
    let ext = ".parquet"@;
    assert(f.subrange(f.len() - ext.len(), f.len() as int) =~= ext);
    let stem = f.subrange(0, f.len() - ext.len());
    assert(stem =~= geography + "_simplified"@);
    assert(stem.subrange(stem.len() - "_simplified"@.len(), stem.len() as int) =~= "_simplified"@);
    assert(stem.subrange(0, stem.len() - "_simplified"@.len()) =~= geography);
    let f2 = geography + ext;
    assert(f2.subrange(f2.len() - ext.len(), f2.len() as int) =~= ext);
    assert(f2.subrange(0, f2.len() - ext.len()) =~= geography);
}

} // verus!
