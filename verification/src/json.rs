//! The members of a JSON object, as far as spots read them: text members,
//! number members (kept as the text of the number) and members of any other kind.

use vstd::prelude::*;
use crate::text::chars_of;
use serde_json::Value;

verus! {

/// The value of one member of a JSON object.
pub enum JsonScalar {
    /// A JSON string.
    Text(String),
    /// A JSON number, as the text that `serde_json::Number` displays.
    Number(String),
    /// `null`, `true`, `false`, an array or an object.
    Other,
}

/// The content of a member value.
pub enum JsonScalarView {
    Text(Seq<char>),
    Number(Seq<char>),
    Other,
}

/// One member of a JSON object.
pub struct JsonEntry {
    pub key: String,
    pub value: JsonScalar,
}

impl View for JsonScalar {
    type V = JsonScalarView;

    open spec fn view(&self) -> JsonScalarView {
        match self {
            JsonScalar::Text(s) => JsonScalarView::Text(s@),
            JsonScalar::Number(s) => JsonScalarView::Number(s@),
            JsonScalar::Other => JsonScalarView::Other,
        }
    }
}

impl View for JsonEntry {
    type V = (Seq<char>, JsonScalarView);

    open spec fn view(&self) -> (Seq<char>, JsonScalarView) {
        (self.key@, self.value@)
    }
}

/// The contents of a list of members.
pub open spec fn entries_view(v: Seq<JsonEntry>) -> Seq<(Seq<char>, JsonScalarView)> {
    v.map_values(|e: JsonEntry| e@)
}

/// What `serde_json::from_str::<serde_json::Value>` makes of `raw`, as a list
/// of members: the members of an object (each key once), no members for any
/// other JSON value, and nothing when `raw` is not JSON.
pub uninterp spec fn json_members(raw: Seq<char>) -> Option<Seq<(Seq<char>, JsonScalarView)>>;

/// Reads `raw` with `serde_json::from_str` into a `serde_json::Value` and
/// lists the members of the object it holds; the result, which depends on
/// `raw` alone, is named `json_members`.
#[verifier::external_body]
pub fn json_entries(raw: &str) -> (r: Option<Vec<JsonEntry>>)
    ensures
        match r {
            Some(v) => json_members(raw@) == Some(entries_view(v@)),
            None => json_members(raw@) is None,
        },
{
    let members = match serde_json::from_str::<Value>(raw) {
        Err(_) => return None,
        Ok(Value::Object(map)) => map,
        Ok(_) => return Some(Vec::new()),
    };
    let mut out = Vec::new();
    for (key, v) in members {
        let value = match v {
            Value::String(s) => JsonScalar::Text(s),
            Value::Number(n) => JsonScalar::Number(n.to_string()),
            _ => JsonScalar::Other,
        };
        out.push(JsonEntry { key, value });
    }
    Some(out)
}

/// The value of the first member named `key`.
pub open spec fn member(ms: Seq<(Seq<char>, JsonScalarView)>, key: Seq<char>) -> Option<JsonScalarView>
    decreases ms.len(),
{
    if ms.len() == 0 {
        None
    } else if ms[0].0 == key {
        Some(ms[0].1)
    } else {
        member(ms.drop_first(), key)
    }
}

/// The text of the member `key` when it is a JSON string, otherwise empty
/// (`value[key].as_str().unwrap_or("")`).
pub open spec fn member_text(ms: Seq<(Seq<char>, JsonScalarView)>, key: Seq<char>) -> Seq<char> {
    match member(ms, key) {
        Some(JsonScalarView::Text(s)) => s,
        _ => Seq::empty(),
    }
}

/// Whether `a` and `b` hold the same characters.
pub fn same_chars(a: &[char], b: &[char]) -> (r: bool)
    ensures
        r == (a@ == b@),
{
    if a.len() != b.len() {
        return false;
    }
    let mut i: usize = 0;
    while i < a.len()
        invariant
            i <= a.len(),
            a.len() == b.len(),
            forall|j: int| 0 <= j < i ==> a@[j] == b@[j],
        decreases a.len() - i,
    {
        if a[i] != b[i] {
            return false;
        }
        i = i + 1;
    }
    assert(a@ =~= b@);
    true
}

proof fn lemma_member_skip(ms: Seq<(Seq<char>, JsonScalarView)>, key: Seq<char>, i: int)
    requires
        0 <= i <= ms.len(),
        forall|j: int| 0 <= j < i ==> (#[trigger] ms[j]).0 != key,
    ensures
        member(ms, key) == member(ms.subrange(i, ms.len() as int), key),
    decreases i,
{
    if i > 0 {
        assert(ms.drop_first().subrange(i - 1, ms.drop_first().len() as int) =~= ms.subrange(
            i,
            ms.len() as int,
        ));
        assert forall|j: int| 0 <= j < i - 1 implies (#[trigger] ms.drop_first()[j]).0 != key by {
            assert(ms.drop_first()[j] == ms[j + 1]);
        }
        assert(ms[0].0 != key);
        lemma_member_skip(ms.drop_first(), key, i - 1);
    } else {
        assert(ms.subrange(0, ms.len() as int) =~= ms);
    }
}

/// The index of the first member named `key`.
pub fn find_member(entries: &[JsonEntry], key: &str) -> (r: Option<usize>)
    ensures
        match r {
            Some(i) => i < entries.len() && member(entries_view(entries@), key@) == Some(
                entries@[i as int].value@,
            ),
            None => member(entries_view(entries@), key@) is None,
        },
{
    let k = chars_of(key);
    let ghost ms = entries_view(entries@);
    let mut i: usize = 0;
    while i < entries.len()
        invariant
            i <= entries.len(),
            k@ == key@,
            ms == entries_view(entries@),
            forall|j: int| 0 <= j < i ==> (#[trigger] ms[j]).0 != key@,
        decreases entries.len() - i,
    {
        let name = chars_of(entries[i].key.as_str());
        if same_chars(&name, &k) {
            proof {
                lemma_member_skip(ms, key@, i as int);
                assert(ms.subrange(i as int, ms.len() as int)[0] == ms[i as int]);
            }
            return Some(i);
        }
        i = i + 1;
    }
    proof {
        lemma_member_skip(ms, key@, i as int);
    }
    None
}

/// The text of the member `key` when it is a JSON string, otherwise empty.
pub fn member_text_of(entries: &[JsonEntry], key: &str) -> (r: String)
    ensures
        r@ == member_text(entries_view(entries@), key@),
{
    match find_member(entries, key) {
        Some(i) => match &entries[i].value {
            JsonScalar::Text(s) => s.clone(),
            _ => String::new(),
        },
        None => String::new(),
    }
}

} // verus!
