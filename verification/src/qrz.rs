//! Answers of the QRZ XML service: values read out of the XML text and the
//! outcome of a login or a callsign lookup.

use vstd::prelude::*;
use crate::text::{
    chars_of, concat_chars, contains, contains_chars, find, find_chars, lemma_find_bound,
    lemma_find_from_found, lemma_find_from_some, occurs_at, string_of, sub_chars, trim,
    trim_chars,
};

verus! {

/// The opening tag `<tag>`.
pub open spec fn open_tag(tag: Seq<char>) -> Seq<char> {
    seq!['<'] + tag + seq!['>']
}

/// The closing tag `</tag>`.
pub open spec fn close_tag(tag: Seq<char>) -> Seq<char> {
    seq!['<', '/'] + tag + seq!['>']
}

/// The trimmed text between the first `<tag>` of `xml` and the first
/// `</tag>` after it, or nothing when either is missing.
pub open spec fn xml_value(xml: Seq<char>, tag: Seq<char>) -> Option<Seq<char>> {
    match find(xml, open_tag(tag)) {
        None => None,
        Some(i) => {
            let rest = xml.subrange(i + open_tag(tag).len(), xml.len() as int);
            match find(rest, close_tag(tag)) {
                None => None,
                Some(j) => Some(trim(rest.subrange(0, j))),
            }
        },
    }
}

/// The value of the element `tag` in the XML text `xml` (see `xml_value`).
pub fn xml_val(xml: &str, tag: &str) -> (r: Option<String>)
    ensures
        match r {
            Some(v) => xml_value(xml@, tag@) == Some(v@),
            None => xml_value(xml@, tag@) is None,
        },
{
    let x = chars_of(xml);
    let t = chars_of(tag);
    let lt = vec!['<'];
    let lt_slash = vec!['<', '/'];
    let gt = vec!['>'];
    let open0 = concat_chars(&lt, &t);
    let open_t = concat_chars(&open0, &gt);
    let close0 = concat_chars(&lt_slash, &t);
    let close_t = concat_chars(&close0, &gt);
    assert(open_t@ =~= open_tag(tag@));
    assert(close_t@ =~= close_tag(tag@));
    let i = match find_chars(&x, &open_t) {
        Some(i) => i,
        None => {
            return None;
        },
    };
    proof {
        lemma_find_bound(x@, open_t@);
        assert(occurs_at(x@, open_t@, i as int));
        assert(i + open_t@.len() <= x@.len());
    }
    let xl = x.len();
    let ol = open_t.len();
    assert(i + ol <= xl);
    let rest = sub_chars(&x, i + ol, xl);
    let j = match find_chars(&rest, &close_t) {
        Some(j) => j,
        None => {
            return None;
        },
    };
    proof {
        lemma_find_bound(rest@, close_t@);
        assert(occurs_at(rest@, close_t@, j as int));
    }
    let inner = sub_chars(&rest, 0, j);
    let v = trim_chars(&inner);
    Some(string_of(&v))
}

/// What the extractor gives back of an element: in `<tag>v</tag>` followed by
/// anything, the value read is `v` trimmed, provided `v` holds no `</tag>`
/// and the tag no `<`.
pub proof fn law_xml_value_reads_back(tag: Seq<char>, v: Seq<char>, post: Seq<char>)
    requires
        !tag.contains('<'),
        !contains(v, close_tag(tag)),
    ensures
        xml_value(open_tag(tag) + v + close_tag(tag) + post, tag) == Some(trim(v)),
{
    let open = open_tag(tag);
    let close = close_tag(tag);
    let xml = open + v + close + post;
    assert(xml.subrange(0, open.len() as int) =~= open);
    assert(occurs_at(xml, open, 0));
    let rest = xml.subrange(open.len() as int, xml.len() as int);
    assert(rest =~= v + close + post);
    assert(rest.subrange(v.len() as int, (v.len() + close.len()) as int) =~= close);
    assert forall|k: int| 0 <= k < v.len() implies !#[trigger] occurs_at(rest, close, k) by {
        if occurs_at(rest, close, k) {
            if k + close.len() <= v.len() {
                assert(v.subrange(k, k + close.len()) =~= rest.subrange(k, k + close.len()));
                assert(occurs_at(v, close, k));
                lemma_find_from_found(v, close, 0, k);
            } else {
                let d = v.len() - k;
                assert(rest[v.len() as int] == '<');
                assert(rest.subrange(k, k + close.len())[d] == close[d]);
                assert(close[d] == '<');
                if 2 <= d < close.len() - 1 {
                    assert(close[d] == tag[d - 2]);
                }
            }
        }
    }
    lemma_find_from_some(rest, close, 0, v.len() as int);
    assert(rest.subrange(0, v.len() as int) =~= v);
}

/// The outcome of a login answer: the session key, else the error the
/// service gives, else a fixed message.
pub open spec fn login_outcome(resp: Seq<char>) -> Result<Seq<char>, Seq<char>> {
    match xml_value(resp, "Key"@) {
        Some(k) => Ok(k),
        None => match xml_value(resp, "Error"@) {
            Some(e) => Err(e),
            None => Err("Login failed – unexpected response"@),
        },
    }
}

/// A login answer with a `Key` element logs in with that key, whatever
/// else it holds; one without a key fails with the text of its `Error`
/// element, and without either with a message of its own.
pub proof fn law_login_key_or_error(resp: Seq<char>)
    ensures
        xml_value(resp, "Key"@) matches Some(k) ==> login_outcome(resp) == Ok::<Seq<char>, Seq<char>>(k),
        xml_value(resp, "Key"@) is None ==> login_outcome(resp) is Err,
        xml_value(resp, "Key"@) is None ==> (xml_value(resp, "Error"@) matches Some(e) ==> login_outcome(resp)
            == Err::<Seq<char>, Seq<char>>(e)),
{
}

/// The outcome of the QRZ login answer `resp`: the session key, or the error.
pub fn login_result(resp: &str) -> (r: Result<String, String>)
    ensures
        match r {
            Ok(k) => login_outcome(resp@) == Ok::<Seq<char>, Seq<char>>(k@),
            Err(e) => login_outcome(resp@) == Err::<Seq<char>, Seq<char>>(e@),
        },
{
    match xml_val(resp, "Key") {
        Some(key) => Ok(key),
        None => match xml_val(resp, "Error") {
            Some(err) => Err(err),
            None => Err("Login failed – unexpected response".to_owned()),
        },
    }
}

/// The values a lookup answer holds: latitude and longitude as text (when
/// present), grid locator, name and picture address (empty when missing).
pub struct QrzFields {
    pub lat: Option<String>,
    pub lon: Option<String>,
    pub grid: String,
    pub name: String,
    pub image: String,
}

/// The answer says the session has ended.
pub open spec fn session_expired(resp: Seq<char>) -> bool {
    contains(resp, "<Error>Session Timeout</Error>"@) || contains(resp, "Invalid session key"@)
}

/// A lookup answer counts as an expired session exactly when it holds
/// `<Error>Session Timeout</Error>` or `Invalid session key`; an answer
/// with any other error (such as `<Error>Not found: K9XYZ</Error>`) and
/// neither text is read as a lookup.
pub proof fn law_expired_only_on_timeout(resp: Seq<char>)
    ensures
        session_expired(resp) ==> contains(resp, "<Error>Session Timeout</Error>"@) || contains(
            resp,
            "Invalid session key"@,
        ),
        contains(resp, "<Error>Session Timeout</Error>"@) ==> session_expired(resp),
        contains(resp, "Invalid session key"@) ==> session_expired(resp),
{
}

/// The value of `tag`, or the empty text.
pub open spec fn xml_value_or_empty(xml: Seq<char>, tag: Seq<char>) -> Seq<char> {
    match xml_value(xml, tag) {
        Some(v) => v,
        None => Seq::empty(),
    }
}

/// `o` holds the text `v`.
pub open spec fn holds_text(o: Option<String>, v: Option<Seq<char>>) -> bool {
    match (o, v) {
        (Some(a), Some(b)) => a@ == b,
        (None, None) => true,
        _ => false,
    }
}

/// The value of `tag` in `xml`, or the empty string.
fn xml_val_or_empty(xml: &str, tag: &str) -> (r: String)
    ensures
        r@ == xml_value_or_empty(xml@, tag@),
{
    match xml_val(xml, tag) {
        Some(v) => v,
        None => String::new(),
    }
}

/// Reads the QRZ lookup answer `resp`: `SESSION_EXPIRED` when the session has
/// ended, else the values of `lat`, `lon`, `grid`, `name` and `image`.
pub fn lookup_fields(resp: &str) -> (r: Result<QrzFields, String>)
    ensures
        session_expired(resp@) <==> r is Err,
        r matches Err(e) ==> e@ == "SESSION_EXPIRED"@,
        r matches Ok(f) ==> {
            &&& holds_text(f.lat, xml_value(resp@, "lat"@))
            &&& holds_text(f.lon, xml_value(resp@, "lon"@))
            &&& f.grid@ == xml_value_or_empty(resp@, "grid"@)
            &&& f.name@ == xml_value_or_empty(resp@, "name"@)
            &&& f.image@ == xml_value_or_empty(resp@, "image"@)
        },
{
    let x = chars_of(resp);
    let timeout = chars_of("<Error>Session Timeout</Error>");
    let invalid = chars_of("Invalid session key");
    if contains_chars(&x, &timeout) || contains_chars(&x, &invalid) {
        return Err("SESSION_EXPIRED".to_owned());
    }
    Ok(
        QrzFields {
            lat: xml_val(resp, "lat"),
            lon: xml_val(resp, "lon"),
            grid: xml_val_or_empty(resp, "grid"),
            name: xml_val_or_empty(resp, "name"),
            image: xml_val_or_empty(resp, "image"),
        },
    )
}

} // verus!
