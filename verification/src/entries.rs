//! The parts of a body, collected: text values and saved files by field
//! name.

use vstd::prelude::*;
use crate::error::DecodeError;
use crate::multipart::MultipartField;
use crate::multipart::MultipartFile;
use crate::multipart::same_bytes;

verus! {

/// The value that a list of pairs holds for `key`: that of the last pair
/// with this key.
pub open spec fn value_of<V>(s: Seq<(Vec<u8>, V)>, key: Seq<u8>) -> Option<V>
    decreases s.len(),
{
    if s.len() == 0 {
        None
    } else if s.last().0@ == key {
        Some(s.last().1)
    } else {
        value_of(s.drop_last(), key)
    }
}

/// No key stands in the list twice.
pub open spec fn distinct_keys<V>(s: Seq<(Vec<u8>, V)>) -> bool {
    forall|i: int, j: int| 0 <= i < j < s.len() ==> s[i].0@ != s[j].0@
}

/// A key that stands nowhere in the list has no value.
pub proof fn lemma_absent<V>(s: Seq<(Vec<u8>, V)>, key: Seq<u8>)
    requires
        forall|i: int| 0 <= i < s.len() ==> s[i].0@ != key,
    ensures
        value_of(s, key) is None,
    decreases s.len(),
{
    if s.len() > 0 {
        lemma_absent(s.drop_last(), key);
    }
}

/// In a list without repeated keys, the value for the key at index `i` is
/// the one that stands there.
pub proof fn lemma_value_at<V>(s: Seq<(Vec<u8>, V)>, i: int)
    requires
        distinct_keys(s),
        0 <= i < s.len(),
    ensures
        value_of(s, s[i].0@) == Some(s[i].1),
    decreases s.len(),
{
    if i < s.len() - 1 {
        assert(s.last() == s[s.len() - 1]);
        lemma_value_at(s.drop_last(), i);
    }
}

/// Replacing the pair at index `i` by one with the same key changes the
/// value for no other key.
pub proof fn lemma_replace<V>(s: Seq<(Vec<u8>, V)>, i: int, pair: (Vec<u8>, V), key: Seq<u8>)
    requires
        0 <= i < s.len(),
        pair.0@ == s[i].0@,
        key != pair.0@,
    ensures
        value_of(s.update(i, pair), key) == value_of(s, key),
    decreases s.len(),
{
    let t = s.update(i, pair);
    if i < s.len() - 1 {
        assert(t.drop_last() =~= s.drop_last().update(i, pair));
        lemma_replace(s.drop_last(), i, pair, key);
    } else {
        assert(t.drop_last() =~= s.drop_last());
    }
}

/// The first index at which `key` stands in the list.
pub fn position<V>(list: &Vec<(Vec<u8>, V)>, key: &Vec<u8>) -> (r: Option<usize>)
    ensures
        match r {
            Some(i) => {
                &&& i < list@.len()
                &&& list@[i as int].0@ == key@
                &&& forall|k: int| 0 <= k < i ==> list@[k].0@ != key@
            },
            None => forall|i: int| 0 <= i < list@.len() ==> list@[i].0@ != key@,
        },
{
    let mut i: usize = 0;
    while i < list.len()
        invariant
            i <= list@.len(),
            forall|k: int| 0 <= k < i ==> list@[k].0@ != key@,
        decreases list@.len() - i,
    {
        if same_bytes(&list[i].0, key) {
            return Some(i);
        }
        i += 1;
    }
    None
}

/// Gives `key` the value `value`, in place of the value that it had.
pub fn put<V>(list: &mut Vec<(Vec<u8>, V)>, key: Vec<u8>, value: V)
    requires
        distinct_keys(old(list)@),
    ensures
        distinct_keys(final(list)@),
        value_of(final(list)@, key@) == Some(value),
        forall|k: Seq<u8>| k != key@ ==> value_of(final(list)@, k) == value_of(old(list)@, k),
        final(list)@.len() == old(list)@.len() + (if value_of(old(list)@, key@) is None {
            1int
        } else {
            0int
        }),
{
    let ghost before = list@;
    match position(list, &key) {
        Some(i) => {
            let ghost pair = (key, value);
            list.set(i, (key, value));
            proof {
                lemma_value_at(before, i as int);
                lemma_value_at(list@, i as int);
                assert forall|k: Seq<u8>| k != pair.0@ implies value_of(list@, k) == value_of(
                    before,
                    k,
                ) by {
                    lemma_replace(before, i as int, pair, k);
                }
            }
        },
        None => {
            list.push((key, value));
            proof {
                lemma_absent(before, key@);
                assert(list@.drop_last() =~= before);
            }
        },
    }
}

/// The value that the list holds for `key`.
pub fn get<'a, V>(list: &'a Vec<(Vec<u8>, V)>, key: &Vec<u8>) -> (r: Option<&'a V>)
    requires
        distinct_keys(list@),
    ensures
        match r {
            Some(v) => value_of(list@, key@) == Some(*v),
            None => value_of(list@, key@) is None,
        },
{
    match position(list, key) {
        Some(i) => {
            proof {
                lemma_value_at(list@, i as int);
            }
            Some(&list[i].1)
        },
        None => {
            proof {
                lemma_absent(list@, key@);
            }
            None
        },
    }
}

/// What a body held: its text values and the paths of its saved files, by
/// field name, and the directory that the files were saved under. Of two
/// parts with one field name the later one stays.
pub struct Entries {
    pub fields: Vec<(Vec<u8>, Vec<u8>)>,
    pub files: Vec<(Vec<u8>, String)>,
    /// The directory the files were saved under.
    pub dir: String,
}

/// What is to be done after a part was read for a collection.
#[derive(Debug)]
pub enum Collect {
    /// The part was a text and has been recorded: read the next part.
    Next,
    /// The part is a file: save its bytes, record the path with
    /// `insert_file`, and read the next part.
    Save { name: Vec<u8>, file: MultipartFile },
    /// The body has ended: the collection is complete.
    Done,
    /// Reading failed: the collection holds what was read before.
    Failed(DecodeError),
}

impl Entries {
    /// No field name stands twice among the texts, nor among the files.
    pub open spec fn wf(&self) -> bool {
        distinct_keys(self.fields@) && distinct_keys(self.files@)
    }

    /// An empty collection for files saved under `path`.
    pub fn with_path(path: String) -> (e: Entries)
        ensures
            e.wf(),
            e.fields@.len() == 0,
            e.files@.len() == 0,
            e.dir == path,
    {
        Entries { fields: Vec::new(), files: Vec::new(), dir: path }
    }

    /// Records the text of the field `name`.
    pub fn insert_field(&mut self, name: Vec<u8>, text: Vec<u8>)
        requires
            old(self).wf(),
        ensures
            final(self).wf(),
            final(self).files == old(self).files,
            final(self).dir == old(self).dir,
            value_of(final(self).fields@, name@) == Some(text),
            forall|k: Seq<u8>|
                k != name@ ==> value_of(final(self).fields@, k) == value_of(old(self).fields@, k),
    {
        put(&mut self.fields, name, text);
    }

    /// Records the path at which the file of the field `name` was saved.
    pub fn insert_file(&mut self, name: Vec<u8>, path: String)
        requires
            old(self).wf(),
        ensures
            final(self).wf(),
            final(self).fields == old(self).fields,
            final(self).dir == old(self).dir,
            value_of(final(self).files@, name@) == Some(path),
            forall|k: Seq<u8>|
                k != name@ ==> value_of(final(self).files@, k) == value_of(old(self).files@, k),
    {
        put(&mut self.files, name, path);
    }

    /// Takes what `next_entry` returned: records a text, and says what is
    /// to be done next. Nothing but a text changes the collection.
    pub fn take_entry(&mut self, entry: Result<Option<(Vec<u8>, MultipartField)>, DecodeError>) -> (c:
        Collect)
        requires
            old(self).wf(),
        ensures
            final(self).wf(),
            final(self).files == old(self).files,
            final(self).dir == old(self).dir,
            match entry {
                Ok(Some((name, MultipartField::Text(text)))) => {
                    &&& c is Next
                    &&& value_of(final(self).fields@, name@) == Some(text)
                    &&& forall|k: Seq<u8>|
                        k != name@ ==> value_of(final(self).fields@, k) == value_of(
                            old(self).fields@,
                            k,
                        )
                },
                Ok(Some((name, MultipartField::File(file)))) => {
                    &&& c == (Collect::Save { name, file })
                    &&& final(self).fields == old(self).fields
                },
                Ok(None) => c is Done && final(self).fields == old(self).fields,
                Err(e) => c == Collect::Failed(e) && final(self).fields == old(self).fields,
            },
    {
        match entry {
            Ok(Some((name, MultipartField::Text(text)))) => {
                self.insert_field(name, text);
                Collect::Next
            },
            Ok(Some((name, MultipartField::File(file)))) => Collect::Save { name, file },
            Ok(None) => Collect::Done,
            Err(e) => Collect::Failed(e),
        }
    }

    /// The text of the field `name`.
    pub fn field(&self, name: &Vec<u8>) -> (r: Option<&Vec<u8>>)
        requires
            self.wf(),
        ensures
            match r {
                Some(v) => value_of(self.fields@, name@) == Some(*v),
                None => value_of(self.fields@, name@) is None,
            },
    {
        get(&self.fields, name)
    }

    /// The path at which the file of the field `name` was saved.
    pub fn file(&self, name: &Vec<u8>) -> (r: Option<&String>)
        requires
            self.wf(),
        ensures
            match r {
                Some(v) => value_of(self.files@, name@) == Some(*v),
                None => value_of(self.files@, name@) is None,
            },
    {
        get(&self.files, name)
    }
}

} // verus!
