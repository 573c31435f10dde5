use vstd::prelude::*;

verus! {

/// The map that a list of tags stands for: a later tag replaces an earlier
/// one with the same key.
pub open spec fn tag_map(entries: Seq<(String, String)>) -> Map<Seq<char>, Seq<char>>
    decreases entries.len(),
{
    if entries.len() == 0 {
        Map::empty()
    } else {
        tag_map(entries.drop_last()).insert(entries.last().0@, entries.last().1@)
    }
}

/// The keys of a list of tags, each once, in the order of their first
/// appearance.
pub open spec fn distinct_keys(entries: Seq<(String, String)>) -> Seq<Seq<char>>
    decreases entries.len(),
{
    if entries.len() == 0 {
        Seq::empty()
    } else {
        let before = distinct_keys(entries.drop_last());
        if before.contains(entries.last().0@) {
            before
        } else {
            before.push(entries.last().0@)
        }
    }
}

/// The texts of `strings`, in the same order.
pub open spec fn texts(strings: Seq<String>) -> Seq<Seq<char>> {
    Seq::new(strings.len(), |i: int| strings[i]@)
}

/// The distinct keys are the keys of the map, each once.
pub proof fn lemma_distinct_keys(entries: Seq<(String, String)>)
    ensures
        distinct_keys(entries).no_duplicates(),
        forall|key: Seq<char>|
            distinct_keys(entries).contains(key) <==> tag_map(entries).contains_key(key),
    decreases entries.len(),
{
    if entries.len() > 0 {
        let front = entries.drop_last();
        let before = distinct_keys(front);
        let last = entries.last().0@;
        lemma_distinct_keys(front);
        assert forall|key: Seq<char>|
            distinct_keys(entries).contains(key) <==> tag_map(entries).contains_key(key) by {
            if before.contains(last) {
            } else {
                let all = before.push(last);
                assert(all[before.len() as int] == last);
                if before.contains(key) {
                    let i = before.index_of(key);
                    assert(all[i] == key);
                }
            }
        }
    }
}

/// The tags of an object: values by their keys.
///
/// Its model is the map from each key to its value.
#[derive(Debug)]
pub struct Tags {
    entries: Vec<(String, String)>,
}

impl View for Tags {
    type V = Map<Seq<char>, Seq<char>>;

    closed spec fn view(&self) -> Map<Seq<char>, Seq<char>> {
        tag_map(self.entries@)
    }
}

impl Tags {
    /// No tags.
    pub fn new() -> (tags: Tags)
        ensures
            tags@ == Map::<Seq<char>, Seq<char>>::empty(),
    {
        Tags { entries: Vec::new() }
    }

    /// Sets the tag `key` to `value`, in place of any earlier value.
    pub fn insert(&mut self, key: String, value: String)
        ensures
            final(self)@ == old(self)@.insert(key@, value@),
    {
        let ghost before = self.entries@;
        self.entries.push((key, value));
        assert(self.entries@.drop_last() =~= before);
    }

    /// The value of the tag `key`.
    pub fn get(&self, key: &str) -> (found: Option<&String>)
        ensures
            match found {
                Some(value) => self@.contains_key(key@) && self@[key@] == value@,
                None => !self@.contains_key(key@),
            },
    {
        let wanted = key.to_owned();
        let mut i: usize = self.entries.len();
        assert(self.entries@.take(i as int) =~= self.entries@);
        while i > 0
            invariant
                i <= self.entries.len(),
                wanted@ == key@,
                tag_map(self.entries@).contains_key(key@) <==> tag_map(
                    self.entries@.take(i as int),
                ).contains_key(key@),
                tag_map(self.entries@).contains_key(key@) ==> tag_map(self.entries@)[key@]
                    == tag_map(self.entries@.take(i as int))[key@],
            decreases i,
        {
            let ghost upto = self.entries@.take(i as int);
            i -= 1;
            assert(upto.drop_last() =~= self.entries@.take(i as int));
            assert(upto.last() == self.entries@[i as int]);
            if self.entries[i].0 == wanted {
                return Some(&self.entries[i].1);
            }
        }
        None
    }

    /// The keys, each once, in the order in which they first were set.
    pub closed spec fn key_order(&self) -> Seq<Seq<char>> {
        distinct_keys(self.entries@)
    }

    /// The keys in their order are the keys of the model, each once.
    pub proof fn lemma_key_order(&self)
        ensures
            self.key_order().no_duplicates(),
            forall|key: Seq<char>| self.key_order().contains(key) <==> self@.contains_key(key),
    {
        lemma_distinct_keys(self.entries@);
    }

    /// The keys, each once, in the order in which they first were set.
    pub fn keys(&self) -> (keys: Vec<String>)
        ensures
            texts(keys@) == self.key_order(),
    {
        let mut keys: Vec<String> = Vec::new();
        let mut i: usize = 0;
        assert(texts(keys@) =~= distinct_keys(self.entries@.take(0)));
        while i < self.entries.len()
            invariant
                i <= self.entries.len(),
                texts(keys@) == distinct_keys(self.entries@.take(i as int)),
            decreases self.entries.len() - i,
        {
            let ghost upto = self.entries@.take(i as int + 1);
            assert(upto.drop_last() =~= self.entries@.take(i as int));
            assert(upto.last() == self.entries@[i as int]);
            let mut known = false;
            let mut j: usize = 0;
            while j < keys.len() && !known
                invariant
                    j <= keys.len(),
                    i < self.entries.len(),
                    known ==> texts(keys@).contains(self.entries@[i as int].0@),
                    !known ==> forall|k: int|
                        0 <= k < j ==> texts(keys@)[k] != self.entries@[i as int].0@,
                decreases keys.len() - j + if known { 0int } else { 1int },
            {
                if keys[j] == self.entries[i].0 {
                    assert(texts(keys@)[j as int] == self.entries@[i as int].0@);
                    known = true;
                } else {
                    j += 1;
                }
            }
            if !known {
                let ghost before = texts(keys@);
                keys.push(self.entries[i].0.clone());
                assert(texts(keys@) =~= before.push(self.entries@[i as int].0@));
            }
            i += 1;
        }
        assert(self.entries@.take(i as int) =~= self.entries@);
        keys
    }

    /// Whether there is a tag `key`.
    pub fn contains_key(&self, key: &str) -> (r: bool)
        ensures
            r == self@.contains_key(key@),
    {
        self.get(key).is_some()
    }

    /// Whether the tag `key` is there and has the value `value`.
    pub fn has(&self, key: &str, value: &str) -> (r: bool)
        ensures
            r == (self@.contains_key(key@) && self@[key@] == value@),
    {
        match self.get(key) {
            Some(found) => *found == value.to_owned(),
            None => false,
        }
    }
}

} // verus!
