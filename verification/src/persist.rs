//! Saving a cache as text and loading it back. Reading and writing the file itself
//! is left to the caller, who hands over what the file holds, or nothing where
//! there is no file.
use crate::cache::{key_model, Cache, LRUCache};
use crate::format::{entries_of, file_text, join_fields, read_entries};
use crate::model::LruState;
use std::fmt::Display;
use std::hash::Hash;
use std::str::FromStr;
use vstd::prelude::*;
use vstd::string::to_string_from_display_ensures;

verus! {

/// `text` is what `to_string` may give for `item`.
pub open spec fn shown<T: Display>(item: T, text: Seq<char>) -> bool {
    exists|written: String| written@ == text && to_string_from_display_ensures::<T>(&item, written)
}

/// Each pair of `texts` is what `to_string` may give for the key and the value of the
/// pair of `pairs` at the same index.
pub open spec fn rendered<K: Display, V: Display>(
    pairs: Seq<(K, V)>,
    texts: Seq<(Seq<char>, Seq<char>)>,
) -> bool {
    &&& texts.len() == pairs.len()
    &&& forall|i: int|
        0 <= i < pairs.len() ==> shown(pairs[i].0, (#[trigger] texts[i]).0) && shown(
            pairs[i].1,
            texts[i].1,
        )
}

/// Calls `str::parse`, which hands the text to the `FromStr` of `T`. Whether that
/// accepts the text, and what it makes of it, is up to the type: nothing is claimed
/// of the result, and nothing proved of the cache rests on it.
#[verifier::external_body]
fn parse_field<T: FromStr>(text: &str) -> (parsed: Option<T>) {
    text.parse::<T>().ok()
}

impl<K: Eq + Hash + Clone, V> Cache<K, V> {
    /// Puts the entry read from a line, if its key and its value were both understood.
    /// Otherwise the line is passed over and the cache stays as it is.
    pub fn load_entry(&mut self, key: Option<K>, value: Option<V>)
        requires
            old(self).wf(),
        ensures
            final(self).wf(),
            final(self)@ == (match (key, value) {
                (Some(k), Some(v)) => old(self)@.put(k, v),
                _ => old(self)@,
            }),
    {
        match (key, value) {
            (Some(k), Some(v)) => self.put(k, v),
            _ => {},
        }
    }

    /// Loads the entries that a file holds. Each line that holds an entry whose key
    /// and value are understood is put, in the order of the lines, as by `put`: later
    /// lines are more recently used, and earlier ones are evicted where the file holds
    /// more than the cache. Other lines are passed over. Where there is no file, the
    /// cache stays as it is.
    pub fn load_from_file(&mut self, file: Option<&str>) where
        K: Display + FromStr,
        V: Display + FromStr,

        requires
            old(self).wf(),
        ensures
            final(self).wf(),
            final(self)@.capacity == old(self)@.capacity,
            file is None ==> final(self)@ == old(self)@,
            file matches Some(text) ==> exists|pairs: Seq<(K, V)>|
                pairs.len() <= entries_of(text@).len() && final(self)@ == old(self)@.put_all(
                    pairs,
                ),
    {
        match file {
            None => {},
            Some(text) => {
                let list = read_entries(text);
                let ghost mut pairs: Seq<(K, V)> = Seq::empty();
                for i in 0..list.len()
                    invariant
                        self.wf(),
                        pairs.len() <= i,
                        self@ == old(self)@.put_all(pairs),
                        self@.capacity == old(self)@.capacity,
                {
                    let key = parse_field::<K>(list[i].0.as_str());
                    let value = parse_field::<V>(list[i].1.as_str());
                    proof {
                        if key is Some && value is Some {
                            let pair = (key->0, value->0);
                            assert(pairs.push(pair).drop_last() == pairs);
                            pairs = pairs.push(pair);
                        }
                    }
                    self.load_entry(key, value);
                }
            },
        }
    }

    /// Creates a cache that holds at most `capacity` entries and loads into it what
    /// the file holds, if there is one.
    pub fn new_persistent(capacity: usize, file: Option<&str>) -> (cache: Self) where
        K: Display + FromStr,
        V: Display + FromStr,

        requires
            key_model::<K>(),
        ensures
            cache.wf(),
            cache@.capacity == capacity,
            file is None ==> cache@ == LruState::<K, V>::empty(capacity as nat),
            file matches Some(text) ==> exists|pairs: Seq<(K, V)>|
                pairs.len() <= entries_of(text@).len() && cache@ == LruState::<K, V>::empty(
                    capacity as nat,
                ).put_all(pairs),
    {
        let mut cache = Cache::new(capacity);
        cache.load_from_file(file);
        cache
    }

    /// Writes the cache as text: one line for each entry, the key and the value as
    /// `to_string` gives them. The order of the lines is not fixed, and is not the
    /// recency order.
    pub fn save_to_file(&self) -> (text: String) where K: Display, V: Display
        requires
            self.wf(),
        ensures
            exists|pairs: Seq<(K, V)>, texts: Seq<(Seq<char>, Seq<char>)>|
                self@.listed_by(pairs) && rendered(pairs, texts) && text@ == file_text(texts),
    {
        let list = self.entries();
        let mut text = String::new();
        let ghost mut texts: Seq<(Seq<char>, Seq<char>)> = Seq::empty();
        for i in 0..list.len()
            invariant
                texts.len() == i,
                text@ == file_text(texts),
                forall|j: int|
                    0 <= j < i ==> shown(*list@[j].0, (#[trigger] texts[j]).0) && shown(
                        *list@[j].1,
                        texts[j].1,
                    ),
        {
            let (key, value) = list[i];
            let key_text = key.to_string();
            let value_text = value.to_string();
            let line = join_fields(key_text.as_str(), value_text.as_str());
            text.append(line.as_str());
            proof {
                let entry = (key_text@, value_text@);
                assert(texts.push(entry).drop_last() == texts);
                texts = texts.push(entry);
            }
        }
        proof {
            assert(rendered(list@.unref(), texts));
        }
        text
    }
}

} // verus!
