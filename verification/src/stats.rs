use itertools::Itertools;
use std::cmp::Ordering;
use vstd::prelude::*;
use crate::boundary::Area;
use crate::tags::{texts, Tags};
use crate::tally::{lines, lines_of, tallied, tally_of, Counts};

verus! {

/// Whether `ranked` holds the counts `counts` with the largest count first,
/// where `from` says for each place of `ranked` at which place of `counts`
/// its entry stood. Entries with the same count keep the order they had.
pub open spec fn ranks(
    ranked: Seq<(Seq<char>, usize)>,
    counts: Seq<(Seq<char>, usize)>,
    from: Seq<int>,
) -> bool {
    &&& ranked.len() == counts.len()
    &&& from.len() == counts.len()
    &&& forall|k: int|
        0 <= k < from.len() ==> 0 <= #[trigger] from[k] < counts.len() && ranked[k]
            == counts[from[k]]
    &&& forall|k: int, l: int|
        0 <= k < l < from.len() ==> ranked[k].1 > ranked[l].1 || (ranked[k].1 == ranked[l].1
            && #[trigger] from[k] < #[trigger] from[l])
}

/// Whether `ranked` is `counts` put in order, the largest count first and
/// entries with the same count in the order they had.
pub open spec fn is_ranking(ranked: Seq<(Seq<char>, usize)>, counts: Seq<(Seq<char>, usize)>) -> bool {
    exists|from: Seq<int>| ranks(ranked, counts, from)
}

/// Orders two entries by their counts, the larger count first.
pub fn by_count_descending(a: &(String, usize), b: &(String, usize)) -> (o: Ordering)
    ensures
        o is Less <==> a.1 > b.1,
        o is Equal <==> a.1 == b.1,
        o is Greater <==> a.1 < b.1,
{
    if a.1 > b.1 {
        Ordering::Less
    } else if a.1 == b.1 {
        Ordering::Equal
    } else {
        Ordering::Greater
    }
}

/// `Itertools::sorted_by` of the itertools crate, which collects the entries
/// and sorts them with std's stable `sort_by`. Assumed, not proved: the
/// entries come back ordered by the given comparison, here the larger count
/// first, and entries that compare equal keep their order.
#[verifier::external_body]
fn sorted_by_count(entries: &Vec<(String, usize)>) -> (ranked: Vec<(String, usize)>)
    ensures
        is_ranking(tally_of(ranked@), tally_of(entries@)),
{
    entries.iter().cloned().sorted_by(|a, b| by_count_descending(a, b)).collect()
}

/// The counts in order, the largest first. Texts with the same count keep
/// the order in which they first were seen.
pub fn sort_count(counts: &Counts) -> (ranked: Vec<(String, usize)>)
    ensures
        is_ranking(tally_of(ranked@), counts@),
{
    sorted_by_count(counts.entries())
}

/// The counts as text: one line for each, the largest count first.
pub fn to_string(counts: &Counts) -> (out: String)
    ensures
        exists|ranked: Seq<(Seq<char>, usize)>|
            is_ranking(ranked, counts@) && out@ == lines_of(ranked),
{
    let ranked = sort_count(counts);
    lines(&ranked)
}

/// The counts after the value of the tag `key` was seen, where there is
/// such a tag.
pub open spec fn with_value(
    counts: Seq<(Seq<char>, usize)>,
    tags: Map<Seq<char>, Seq<char>>,
    key: Seq<char>,
) -> Seq<(Seq<char>, usize)> {
    if tags.contains_key(key) {
        tallied(counts, tags[key])
    } else {
        counts
    }
}

/// How often each value of the tag `key` occurs among `areas`.
pub open spec fn value_counts(areas: Seq<Area>, key: Seq<char>) -> Seq<(Seq<char>, usize)>
    decreases areas.len(),
{
    if areas.len() == 0 {
        Seq::empty()
    } else {
        with_value(value_counts(areas.drop_last(), key), areas.last().tags@, key)
    }
}

/// Whether the tag `key` is counted among the other tags: `boundary` and
/// `type` are not, their values are counted instead.
pub open spec fn is_other_key(key: Seq<char>) -> bool {
    key != "boundary"@ && key != "type"@
}

/// The counts after each of `keys` that is counted among the other tags was
/// seen.
pub open spec fn with_keys(counts: Seq<(Seq<char>, usize)>, keys: Seq<Seq<char>>) -> Seq<
    (Seq<char>, usize),
>
    decreases keys.len(),
{
    if keys.len() == 0 {
        counts
    } else {
        let before = with_keys(counts, keys.drop_last());
        if is_other_key(keys.last()) {
            tallied(before, keys.last())
        } else {
            before
        }
    }
}

/// How many of `areas` have each of the other tags.
pub open spec fn key_counts(areas: Seq<Area>) -> Seq<(Seq<char>, usize)>
    decreases areas.len(),
{
    if areas.len() == 0 {
        Seq::empty()
    } else {
        with_keys(key_counts(areas.drop_last()), areas.last().tags.key_order())
    }
}

/// What a survey of areas counts.
#[derive(Debug)]
pub struct Stats {
    /// The number of areas.
    pub relations: usize,
    /// The values of `admin_level`.
    pub admin_levels: Counts,
    /// The values of `boundary`.
    pub boundaries: Counts,
    /// The values of `type`.
    pub types: Counts,
    /// The keys of all other tags.
    pub tags: Counts,
}

/// Counts the value of the tag `key`, where `tags` has such a tag.
pub fn add_count(tags: &Tags, counts: &mut Counts, key: &str)
    ensures
        final(counts)@ == with_value(old(counts)@, tags@, key@),
{
    match tags.get(key) {
        Some(value) => {
            counts.add(value.as_str());
        },
        None => {},
    }
}

/// Counts each key of `tags` that is counted among the other tags.
pub fn add_keys(tags: &Tags, counts: &mut Counts)
    ensures
        final(counts)@ == with_keys(old(counts)@, tags.key_order()),
{
    let keys = tags.keys();
    let boundary = "boundary".to_owned();
    let kind = "type".to_owned();
    let mut i: usize = 0;
    assert(texts(keys@).take(0) =~= Seq::<Seq<char>>::empty());
    while i < keys.len()
        invariant
            i <= keys.len(),
            boundary@ == "boundary"@,
            kind@ == "type"@,
            counts@ == with_keys(old(counts)@, texts(keys@).take(i as int)),
        decreases keys.len() - i,
    {
        let ghost upto = texts(keys@).take(i as int + 1);
        assert(upto.drop_last() =~= texts(keys@).take(i as int));
        assert(upto.last() == keys@[i as int]@);
        if !(keys[i] == boundary) && !(keys[i] == kind) {
            counts.add(keys[i].as_str());
        }
        i += 1;
    }
    assert(texts(keys@).take(i as int) =~= texts(keys@));
}

/// Surveys `areas`: how many there are, how often each administrative
/// level, each kind of boundary and each type occurs, and how many areas
/// have each other tag.
pub fn survey(areas: &[Area]) -> (stats: Stats)
    ensures
        stats.relations == areas@.len(),
        stats.admin_levels@ == value_counts(areas@, "admin_level"@),
        stats.boundaries@ == value_counts(areas@, "boundary"@),
        stats.types@ == value_counts(areas@, "type"@),
        stats.tags@ == key_counts(areas@),
{
    let mut admin_levels = Counts::new();
    let mut boundaries = Counts::new();
    let mut types = Counts::new();
    let mut tags = Counts::new();
    let mut i: usize = 0;
    assert(areas@.take(0) =~= Seq::<Area>::empty());
    while i < areas.len()
        invariant
            i <= areas.len(),
            admin_levels@ == value_counts(areas@.take(i as int), "admin_level"@),
            boundaries@ == value_counts(areas@.take(i as int), "boundary"@),
            types@ == value_counts(areas@.take(i as int), "type"@),
            tags@ == key_counts(areas@.take(i as int)),
        decreases areas.len() - i,
    {
        let ghost upto = areas@.take(i as int + 1);
        assert(upto.drop_last() =~= areas@.take(i as int));
        assert(upto.last() == areas@[i as int]);
        add_count(&areas[i].tags, &mut admin_levels, "admin_level");
        add_count(&areas[i].tags, &mut boundaries, "boundary");
        add_count(&areas[i].tags, &mut types, "type");
        add_keys(&areas[i].tags, &mut tags);
        i += 1;
    }
    assert(areas@.take(i as int) =~= areas@);
    Stats { relations: areas.len(), admin_levels, boundaries, types, tags }
}

} // verus!
