//! A parsed JSON value as a plain tree, with object members in document order.
use vstd::prelude::*;
use vstd::string::*;

verus! {

#[derive(Debug)]
pub enum Json {
    Null,
    Bool(bool),
    /// A number, in its written form.
    Number(String),
    Str(String),
    Array(Vec<Json>),
    /// Members in the order the document gives them.
    Object(Vec<(String, Json)>),
}

/// The value of the first member named `key`.
pub open spec fn field(entries: Seq<(String, Json)>, key: Seq<char>) -> Option<Json>
    decreases entries.len(),
{
    if entries.len() == 0 {
        None
    } else if entries[0].0@ == key {
        Some(entries[0].1)
    } else {
        field(entries.drop_first(), key)
    }
}

/// The value behind an optional reference.
pub open spec fn value_of(f: Option<&Json>) -> Option<Json> {
    match f {
        Some(j) => Some(*j),
        None => None,
    }
}

/// Whether `p` begins `s`.
pub open spec fn has_prefix(s: Seq<char>, p: Seq<char>) -> bool {
    p.len() <= s.len() && s.take(p.len() as int) == p
}

/// An optional text optionally present: absent or `null` is `None`; a string
/// is its text; anything else does not decode (outer `None`).
pub open spec fn optional_text(f: Option<Json>) -> Option<Option<Seq<char>>> {
    match f {
        None => Some(None),
        Some(Json::Null) => Some(None),
        Some(Json::Str(s)) => Some(Some(s@)),
        _ => None,
    }
}

/// A required text: present and a string.
pub open spec fn required_text(f: Option<Json>) -> Option<Seq<char>> {
    match f {
        Some(Json::Str(s)) => Some(s@),
        _ => None,
    }
}

/// A required boolean: present and `true` or `false`.
pub open spec fn required_bool(f: Option<Json>) -> Option<bool> {
    match f {
        Some(Json::Bool(b)) => Some(b),
        _ => None,
    }
}

proof fn lemma_field_at(entries: Seq<(String, Json)>, key: Seq<char>, i: int)
    requires
        0 <= i <= entries.len(),
        forall|k: int| 0 <= k < i ==> (#[trigger] entries[k]).0@ != key,
    ensures
        i < entries.len() && entries[i].0@ == key ==> field(entries, key) == Some(entries[i].1),
        i == entries.len() ==> field(entries, key) == None::<Json>,
    decreases i,
{
    if i > 0 {
        let rest = entries.drop_first();
        assert forall|k: int| 0 <= k < i - 1 implies (#[trigger] rest[k]).0@ != key by {
            assert(rest[k] == entries[k + 1]);
        }
        lemma_field_at(rest, key, i - 1);
    }
}

/// The value of the first member named `key`.
pub fn get_field<'a>(entries: &'a Vec<(String, Json)>, key: &str) -> (r: Option<&'a Json>)
    ensures
        match r {
            Some(v) => field(entries@, key@) == Some(*v),
            None => field(entries@, key@) == None::<Json>,
        },
{
    let wanted = String::from_str(key);
    let n = entries.len();
    let mut i: usize = 0;
    while i < n
        invariant
            n == entries@.len(),
            i <= n,
            wanted@ == key@,
            forall|k: int| 0 <= k < i ==> (#[trigger] entries@[k]).0@ != key@,
        decreases n - i,
    {
        if entries[i].0 == wanted {
            proof {
                lemma_field_at(entries@, key@, i as int);
            }
            return Some(&entries[i].1);
        }
        i = i + 1;
    }
    proof {
        lemma_field_at(entries@, key@, i as int);
    }
    None
}

/// Whether `p` begins `s`.
pub fn starts_with(s: &str, p: &str) -> (r: bool)
    ensures
        r == has_prefix(s@, p@),
{
    let pl = p.unicode_len();
    if pl <= s.unicode_len() {
        let head = String::from_str(s.substring_char(0, pl));
        let whole = String::from_str(p);
        head == whole
    } else {
        false
    }
}

pub fn optional_text_of(f: Option<&Json>) -> (r: Option<Option<String>>)
    ensures
        match r {
            Some(Some(s)) => optional_text(value_of(f)) == Some(Some(s@)),
            Some(None) => optional_text(value_of(f)) == Some(None::<Seq<char>>),
            None => optional_text(value_of(f)) == None::<Option<Seq<char>>>,
        },
{
    match f {
        None => Some(None),
        Some(Json::Null) => Some(None),
        Some(Json::Str(s)) => Some(Some(s.clone())),
        _ => None,
    }
}

pub fn required_text_of(f: Option<&Json>) -> (r: Option<String>)
    ensures
        match r {
            Some(s) => required_text(value_of(f)) == Some(s@),
            None => required_text(value_of(f)) == None::<Seq<char>>,
        },
{
    match f {
        Some(Json::Str(s)) => Some(s.clone()),
        _ => None,
    }
}

pub fn required_bool_of(f: Option<&Json>) -> (r: Option<bool>)
    ensures
        r == required_bool(value_of(f)),
{
    match f {
        Some(Json::Bool(b)) => Some(*b),
        _ => None,
    }
}

} // verus!
