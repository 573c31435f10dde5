use vstd::prelude::*;
use vstd::string::StringExecFns;

verus! {

/// The place of the first count for `key`, or the number of counts where
/// there is none.
pub open spec fn place_of(counts: Seq<(Seq<char>, usize)>, key: Seq<char>) -> int
    decreases counts.len(),
{
    if counts.len() == 0 {
        0
    } else if counts[0].0 == key {
        0
    } else {
        1 + place_of(counts.skip(1), key)
    }
}

/// The count after one more, which stops at the largest number.
pub open spec fn bumped(count: usize) -> usize {
    if count < usize::MAX {
        (count + 1) as usize
    } else {
        count
    }
}

/// The counts after `key` was seen once more: its count is bumped where it
/// has one, and a new count of one follows the others where it has none.
pub open spec fn tallied(counts: Seq<(Seq<char>, usize)>, key: Seq<char>) -> Seq<
    (Seq<char>, usize),
> {
    let at = place_of(counts, key);
    if at < counts.len() {
        counts.update(at, (key, bumped(counts[at].1)))
    } else {
        counts.push((key, 1usize))
    }
}

/// The counts that `entries` hold, by the texts of their keys.
pub open spec fn tally_of(entries: Seq<(String, usize)>) -> Seq<(Seq<char>, usize)> {
    Seq::new(entries.len(), |i: int| (entries[i].0@, entries[i].1))
}

/// The decimal form of `n`.
pub open spec fn decimal_digits(n: nat) -> Seq<char>
    decreases n,
{
    if n < 10 {
        seq![((48 + n) as u8) as char]
    } else {
        decimal_digits(n / 10).push(((48 + n % 10) as u8) as char)
    }
}

/// The line of one count: the key, a space, the count and a line feed.
pub open spec fn line_of(entry: (Seq<char>, usize)) -> Seq<char> {
    entry.0.push(' ') + decimal_digits(entry.1 as nat).push('\n')
}

/// The lines of `entries`, one after the other.
pub open spec fn lines_of(entries: Seq<(Seq<char>, usize)>) -> Seq<char>
    decreases entries.len(),
{
    if entries.len() == 0 {
        Seq::empty()
    } else {
        lines_of(entries.drop_last()) + line_of(entries.last())
    }
}

/// If no count before place `i` is for `key` and the one at `i` is, then
/// `i` is the place of `key`.
proof fn lemma_place_found(counts: Seq<(Seq<char>, usize)>, key: Seq<char>, i: int)
    requires
        0 <= i < counts.len(),
        counts[i].0 == key,
        forall|j: int| 0 <= j < i ==> counts[j].0 != key,
    ensures
        place_of(counts, key) == i,
    decreases i,
{
    if i > 0 {
        let rest = counts.skip(1);
        assert forall|j: int| 0 <= j < i - 1 implies rest[j].0 != key by {
            assert(rest[j] == counts[j + 1]);
        }
        lemma_place_found(rest, key, i - 1);
    }
}

/// If no count is for `key`, its place is behind them all.
proof fn lemma_place_missing(counts: Seq<(Seq<char>, usize)>, key: Seq<char>)
    requires
        forall|j: int| 0 <= j < counts.len() ==> counts[j].0 != key,
    ensures
        place_of(counts, key) == counts.len(),
    decreases counts.len(),
{
    if counts.len() > 0 {
        let rest = counts.skip(1);
        assert forall|j: int| 0 <= j < rest.len() implies rest[j].0 != key by {
            assert(rest[j] == counts[j + 1]);
        }
        lemma_place_missing(rest, key);
    }
}

/// How often each of some texts was seen.
///
/// Its model is the sequence of texts with their counts, in the order in
/// which the texts first were seen.
#[derive(Debug)]
pub struct Counts {
    entries: Vec<(String, usize)>,
}

impl View for Counts {
    type V = Seq<(Seq<char>, usize)>;

    closed spec fn view(&self) -> Seq<(Seq<char>, usize)> {
        tally_of(self.entries@)
    }
}

impl Counts {
    /// No counts.
    pub fn new() -> (counts: Counts)
        ensures
            counts@ == Seq::<(Seq<char>, usize)>::empty(),
    {
        let counts = Counts { entries: Vec::new() };
        assert(counts@ =~= Seq::<(Seq<char>, usize)>::empty());
        counts
    }

    /// The number of texts that were seen.
    pub fn len(&self) -> (n: usize)
        ensures
            n == self@.len(),
    {
        self.entries.len()
    }

    /// The texts with their counts.
    pub fn entries(&self) -> (entries: &Vec<(String, usize)>)
        ensures
            tally_of(entries@) == self@,
    {
        &self.entries
    }

    /// Counts `key` once more.
    pub fn add(&mut self, key: &str)
        ensures
            final(self)@ == tallied(old(self)@, key@),
    {
        let wanted = key.to_owned();
        let ghost before = tally_of(self.entries@);
        let mut i: usize = 0;
        while i < self.entries.len()
            invariant
                i <= self.entries.len(),
                wanted@ == key@,
                before == old(self)@,
                before == tally_of(self.entries@),
                forall|j: int| 0 <= j < i ==> before[j].0 != key@,
            decreases self.entries.len() - i,
        {
            if self.entries[i].0 == wanted {
                proof {
                    assert(before[i as int].0 == key@);
                    lemma_place_found(before, key@, i as int);
                }
                let (text, count) = self.entries.remove(i);
                let more: usize = if count < usize::MAX {
                    count + 1
                } else {
                    count
                };
                self.entries.insert(i, (text, more));
                assert(tally_of(self.entries@) =~= before.update(i as int, (key@, more)));
                return ;
            }
            i += 1;
        }
        proof {
            lemma_place_missing(before, key@);
        }
        self.entries.push((wanted, 1));
        assert(tally_of(self.entries@) =~= before.push((key@, 1usize)));
    }
}

/// `usize::to_string` of std. Assumed, not proved: it gives the decimal form
/// of `count`, without sign and without leading zeros.
#[verifier::external_body]
fn decimal(count: usize) -> (text: String)
    ensures
        text@ == decimal_digits(count as nat),
{
    count.to_string()
}

/// The lines of `entries`, one after the other: each holds the text, a
/// space and the count.
pub fn lines(entries: &Vec<(String, usize)>) -> (out: String)
    ensures
        out@ == lines_of(tally_of(entries@)),
{
    let mut out = String::new();
    let mut i: usize = 0;
    proof {
        reveal_strlit(" ");
        reveal_strlit("\n");
        assert(" "@ =~= seq![' ']);
        assert("\n"@ =~= seq!['\n']);
        assert(tally_of(entries@).take(0) =~= Seq::<(Seq<char>, usize)>::empty());
    }
    while i < entries.len()
        invariant
            i <= entries.len(),
            " "@ == seq![' '],
            "\n"@ == seq!['\n'],
            out@ == lines_of(tally_of(entries@).take(i as int)),
        decreases entries.len() - i,
    {
        let ghost before = out@;
        let ghost upto = tally_of(entries@).take(i as int + 1);
        let ghost entry = tally_of(entries@)[i as int];
        assert(upto.drop_last() =~= tally_of(entries@).take(i as int));
        assert(upto.last() == entry);
        let digits = decimal(entries[i].1);
        out.append(entries[i].0.as_str());
        out.append(" ");
        out.append(digits.as_str());
        out.append("\n");
        assert(out@ =~= before + line_of(entry));
        i += 1;
    }
    assert(tally_of(entries@).take(i as int) =~= tally_of(entries@));
    out
}

} // verus!
