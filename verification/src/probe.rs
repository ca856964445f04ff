use vstd::prelude::*;

use serde_json::Value;

use crate::text::{count_char, split_ratio};

verus! {

/// An entry of a JSON object that ffprobe reports: a string, a number (as the text
/// JSON writes it with), or anything else.
pub enum ProbeEntry {
    Text(String),
    Number(String),
    Other,
}

/// The abstract value of an entry.
pub enum ProbeEntryView {
    Text(Seq<char>),
    Number(Seq<char>),
    Other,
}

impl View for ProbeEntry {
    type V = ProbeEntryView;

    open spec fn view(&self) -> ProbeEntryView {
        match self {
            ProbeEntry::Text(s) => ProbeEntryView::Text(s@),
            ProbeEntry::Number(s) => ProbeEntryView::Number(s@),
            ProbeEntry::Other => ProbeEntryView::Other,
        }
    }
}

/// What ffprobe reported, as far as the probing functions read it: the entries of the
/// first stream (`None` if there is no stream) and those of the format.
pub struct ProbeReport {
    pub first_stream: Option<Vec<(String, ProbeEntry)>>,
    pub format: Vec<(String, ProbeEntry)>,
}

pub open spec fn entries_view(v: Vec<(String, ProbeEntry)>) -> Seq<(Seq<char>, ProbeEntryView)> {
    v@.map_values(|e: (String, ProbeEntry)| (e.0@, e.1@))
}

impl View for ProbeReport {
    type V = (Option<Seq<(Seq<char>, ProbeEntryView)>>, Seq<(Seq<char>, ProbeEntryView)>);

    open spec fn view(&self) -> (Option<Seq<(Seq<char>, ProbeEntryView)>>, Seq<(Seq<char>, ProbeEntryView)>) {
        (
            match self.first_stream {
                Some(v) => Some(entries_view(v)),
                None => None,
            },
            entries_view(self.format),
        )
    }
}

/// A JSON value; a number is kept as the text JSON writes it with.
pub enum Json {
    Null,
    Bool(bool),
    Number(String),
    Text(String),
    Array(Vec<Json>),
    Object(Vec<(String, Json)>),
}

/// The abstract value of a JSON value.
pub enum JsonView {
    Null,
    Bool(bool),
    Number(Seq<char>),
    Text(Seq<char>),
    Array(Seq<JsonView>),
    Object(Seq<(Seq<char>, JsonView)>),
}

pub open spec fn json_view(j: Json) -> JsonView
    decreases j,
{
    match j {
        Json::Null => JsonView::Null,
        Json::Bool(b) => JsonView::Bool(b),
        Json::Number(t) => JsonView::Number(t@),
        Json::Text(t) => JsonView::Text(t@),
        Json::Array(v) => JsonView::Array(jsons_view(v@)),
        Json::Object(m) => JsonView::Object(members_view(m@)),
    }
}

pub open spec fn jsons_view(s: Seq<Json>) -> Seq<JsonView>
    decreases s,
{
    if s.len() == 0 {
        Seq::empty()
    } else {
        jsons_view(s.drop_last()).push(json_view(s.last()))
    }
}

pub open spec fn members_view(s: Seq<(String, Json)>) -> Seq<(Seq<char>, JsonView)>
    decreases s,
{
    if s.len() == 0 {
        Seq::empty()
    } else {
        members_view(s.drop_last()).push((s.last().0@, json_view(s.last().1)))
    }
}

proof fn lemma_jsons_view(s: Seq<Json>)
    ensures
        jsons_view(s).len() == s.len(),
        forall|i: int| 0 <= i < s.len() ==> #[trigger] jsons_view(s)[i] == json_view(s[i]),
    decreases s.len(),
{
    if s.len() > 0 {
        lemma_jsons_view(s.drop_last());
        assert forall|i: int| 0 <= i < s.len() implies #[trigger] jsons_view(s)[i] == json_view(s[i]) by {
            if i < s.len() - 1 {
                assert(s.drop_last()[i] == s[i]);
            }
        }
    }
}

proof fn lemma_members_view(s: Seq<(String, Json)>)
    ensures
        members_view(s).len() == s.len(),
        forall|i: int|
            0 <= i < s.len() ==> #[trigger] members_view(s)[i] == (s[i].0@, json_view(s[i].1)),
    decreases s.len(),
{
    if s.len() > 0 {
        lemma_members_view(s.drop_last());
        assert forall|i: int| 0 <= i < s.len() implies #[trigger] members_view(s)[i] == (
            s[i].0@,
            json_view(s[i].1),
        ) by {
            if i < s.len() - 1 {
                assert(s.drop_last()[i] == s[i]);
            }
        }
    }
}

/// What `parse_json` makes of the bytes ffprobe printed.
pub uninterp spec fn parsed_json(stdout: Seq<u8>) -> Option<JsonView>;

/// The JSON value type of `serde_json`, held opaque.
#[verifier::external_type_specification]
#[verifier::external_body]
pub struct ExJsonValue(Value);

/// Parses bytes as JSON with `serde_json::from_slice` into a `serde_json::Value` and
/// converts it to a `Json`, variant by variant; `None` where the bytes are not JSON.
/// The result is named, not described: it is a function of the bytes alone.
#[verifier::external_body]
fn parse_json(stdout: &[u8]) -> (r: Option<Json>)
    ensures
        match r {
            Some(j) => parsed_json(stdout@) == Some(json_view(j)),
            None => parsed_json(stdout@) is None,
        },
{
    serde_json::from_slice::<Value>(stdout).ok().map(json_from_value)
}

/// A `serde_json::Value` as a `Json`, one variant for the other (a number by its JSON
/// text, `serde_json::Number`'s `Display`); used by `parse_json` for the nested values.
#[verifier::external_body]
fn json_from_value(v: Value) -> Json {
    match v {
        Value::Null => Json::Null,
        Value::Bool(b) => Json::Bool(b),
        Value::Number(n) => Json::Number(n.to_string()),
        Value::String(s) => Json::Text(s),
        Value::Array(a) => Json::Array(a.into_iter().map(json_from_value).collect()),
        Value::Object(m) => Json::Object(m.into_iter().map(|(k, x)| (k, json_from_value(x))).collect()),
    }
}

/// An entry of a report: a string, a number's text, or anything else.
pub open spec fn entry_of(j: JsonView) -> ProbeEntryView {
    match j {
        JsonView::Text(t) => ProbeEntryView::Text(t),
        JsonView::Number(t) => ProbeEntryView::Number(t),
        _ => ProbeEntryView::Other,
    }
}

/// A member of an object as an entry.
pub open spec fn entry_pair(e: (Seq<char>, JsonView)) -> (Seq<char>, ProbeEntryView) {
    (e.0, entry_of(e.1))
}

/// The entries of an object; nothing for any other value.
pub open spec fn entries_of(j: JsonView) -> Seq<(Seq<char>, ProbeEntryView)> {
    match j {
        JsonView::Object(m) => m.map_values(|e: (Seq<char>, JsonView)| entry_pair(e)),
        _ => Seq::empty(),
    }
}

/// The member `key` of an object, as JSON indexing reads it: null where the value is
/// not an object or has no such member.
pub open spec fn member_of(j: JsonView, key: Seq<char>) -> JsonView {
    match j {
        JsonView::Object(m) => match lookup(m, key) {
            Some(x) => x,
            None => JsonView::Null,
        },
        _ => JsonView::Null,
    }
}

/// The parts of ffprobe's report that are read: the entries of the first element of
/// `streams` (`None` where `streams` is not an array with an element), and the
/// entries of `format`.
pub open spec fn report_spec(j: JsonView) -> (
    Option<Seq<(Seq<char>, ProbeEntryView)>>,
    Seq<(Seq<char>, ProbeEntryView)>,
) {
    (
        match member_of(j, "streams"@) {
            JsonView::Array(a) => if a.len() > 0 {
                Some(entries_of(a[0]))
            } else {
                None
            },
            _ => None,
        },
        entries_of(member_of(j, "format"@)),
    )
}

/// Why the report of ffprobe does not give what was asked for.
#[derive(Debug, Clone, Copy, PartialEq, Eq)]
pub enum ProbeError {
    /// The output is not JSON.
    NotJson,
    /// No stream was reported.
    NoStream,
    /// The entry is absent or of the wrong kind.
    MissingEntry,
    /// The entry does not read as expected.
    Malformed,
}

/// The first entry named `key`.
pub open spec fn lookup<V>(es: Seq<(Seq<char>, V)>, key: Seq<char>) -> Option<V>
    decreases es.len(),
{
    if es.len() == 0 {
        None
    } else if es[0].0 == key {
        Some(es[0].1)
    } else {
        lookup(es.drop_first(), key)
    }
}

pub open spec fn is_digit(c: char) -> bool {
    48 <= (c as int) <= 57
}

/// The value of a sequence of decimal digits.
pub open spec fn digits_value(s: Seq<char>) -> nat
    decreases s.len(),
{
    if s.len() == 0 {
        0
    } else {
        digits_value(s.drop_last()) * 10 + ((s.last() as int) - 48) as nat
    }
}

/// The digits of an unsigned number: the text without a leading `+`.
pub open spec fn unsigned_digits(s: Seq<char>) -> Seq<char> {
    if s.len() > 0 && s[0] == '+' {
        s.drop_first()
    } else {
        s
    }
}

/// The text is an unsigned decimal number: an optional `+` and at least one digit.
pub open spec fn is_unsigned(s: Seq<char>) -> bool {
    let d = unsigned_digits(s);
    d.len() > 0 && forall|i: int| 0 <= i < d.len() ==> is_digit(#[trigger] d[i])
}

/// What `parse_unsigned` returns.
pub open spec fn unsigned_spec(s: Seq<char>) -> Option<u64> {
    if is_unsigned(s) && digits_value(unsigned_digits(s)) <= u64::MAX {
        Some(digits_value(unsigned_digits(s)) as u64)
    } else {
        None
    }
}

proof fn lemma_digits_prefix_le(d: Seq<char>, k: int)
    requires
        0 <= k <= d.len(),
        forall|i: int| 0 <= i < d.len() ==> is_digit(#[trigger] d[i]),
    ensures
        digits_value(d.subrange(0, k)) <= digits_value(d),
    decreases d.len(),
{
    if k == d.len() {
        assert(d.subrange(0, k) =~= d);
    } else {
        let p = d.drop_last();
        assert forall|i: int| 0 <= i < p.len() implies is_digit(#[trigger] p[i]) by {
            assert(p[i] == d[i]);
        }
        lemma_digits_prefix_le(p, k);
        assert(p.subrange(0, k) =~= d.subrange(0, k));
        assert(is_digit(d[d.len() - 1]));
    }
}

/// Reads an unsigned decimal number as `str::parse::<u64>` does: an optional `+`,
/// then at least one digit and nothing else, and a value that fits in a `u64`.
pub fn parse_unsigned(s: &str) -> (r: Option<u64>)
    ensures
        r == unsigned_spec(s@),
{
    let n = s.unicode_len();
    let mut start: usize = 0;
    if n > 0 && s.get_char(0) == '+' {
        start = 1;
    }
    let ghost d = unsigned_digits(s@);
    assert(d =~= s@.subrange(start as int, n as int));
    if start >= n {
        return None;
    }
    let mut v: u64 = 0;
    let mut k: usize = start;
    assert(s@.subrange(start as int, k as int) =~= Seq::<char>::empty());
    while k < n
        invariant
            n == s@.len(),
            start <= k <= n,
            d == s@.subrange(start as int, n as int),
            d == unsigned_digits(s@),
            forall|i: int| 0 <= i < k - start ==> is_digit(#[trigger] d[i]),
            v == digits_value(s@.subrange(start as int, k as int)),
        decreases n - k,
    {
        let c = s.get_char(k);
        let cu = c as u32;
        assert(d[k - start] == c);
        if cu < 48 || cu > 57 {
            assert(!is_digit(d[k - start]));
            return None;
        }
        let ghost next = s@.subrange(start as int, k + 1);
        assert(next.drop_last() =~= s@.subrange(start as int, k as int));
        assert(next.last() == c);
        let digit = (cu - 48) as u64;
        let step = match v.checked_mul(10) {
            Some(m) => m.checked_add(digit),
            None => None,
        };
        match step {
            Some(w) => {
                v = w;
            },
            None => {
                proof {
                    if is_unsigned(s@) {
                        assert(d.subrange(0, k + 1 - start) =~= next);
                        lemma_digits_prefix_le(d, k + 1 - start);
                    }
                }
                return None;
            },
        }
        k = k + 1;
    }
    assert(s@.subrange(start as int, n as int) =~= d);
    Some(v)
}

fn str_eq(a: &str, b: &str) -> (r: bool)
    ensures
        r == (a@ == b@),
{
    let n = a.unicode_len();
    if n != b.unicode_len() {
        return false;
    }
    let mut k: usize = 0;
    while k < n
        invariant
            n == a@.len(),
            n == b@.len(),
            0 <= k <= n,
            forall|i: int| 0 <= i < k ==> a@[i] == b@[i],
        decreases n - k,
    {
        if a.get_char(k) != b.get_char(k) {
            return false;
        }
        k = k + 1;
    }
    assert(a@ =~= b@);
    true
}

/// The first entry named `key`, if any.
fn find_entry<'a>(es: &'a Vec<(String, ProbeEntry)>, key: &str) -> (r: Option<&'a ProbeEntry>)
    ensures
        match lookup(entries_view(*es), key@) {
            None => r is None,
            Some(e) => r matches Some(x) && x@ == e,
        },
{
    let ghost full = entries_view(*es);
    let n = es.len();
    let mut k: usize = 0;
    assert(full.subrange(0, n as int) =~= full);
    while k < n
        invariant
            n == es@.len(),
            full == entries_view(*es),
            0 <= k <= n,
            lookup(full, key@) == lookup(full.subrange(k as int, n as int), key@),
        decreases n - k,
    {
        let ghost rest = full.subrange(k as int, n as int);
        assert(rest[0] == full[k as int]);
        assert(rest.drop_first() =~= full.subrange(k + 1, n as int));
        if str_eq(es[k].0.as_str(), key) {
            return Some(&es[k].1);
        }
        k = k + 1;
    }
    None
}

/// The value of a number entry that is an unsigned integer fitting in a `u64`
/// (as `serde_json::Value::as_u64` reads it).
pub open spec fn entry_count(e: Option<ProbeEntryView>) -> Option<u64> {
    match e {
        Some(ProbeEntryView::Number(t)) => unsigned_spec(t),
        _ => None,
    }
}

fn entry_count_exec(e: Option<&ProbeEntry>) -> (r: Option<u64>)
    ensures
        r == entry_count(match e {
            Some(x) => Some(x@),
            None => None,
        }),
{
    match e {
        Some(ProbeEntry::Number(t)) => parse_unsigned(t.as_str()),
        _ => None,
    }
}

/// The text of a string entry.
pub open spec fn entry_text(e: Option<ProbeEntryView>) -> Option<Seq<char>> {
    match e {
        Some(ProbeEntryView::Text(t)) => Some(t),
        _ => None,
    }
}

/// What `report_size` returns: the `width` and `height` of the first stream (each
/// cut to 32 bits, as a cast does).
pub open spec fn size_spec(
    r: (Option<Seq<(Seq<char>, ProbeEntryView)>>, Seq<(Seq<char>, ProbeEntryView)>),
) -> Result<(u32, u32), ProbeError> {
    match r.0 {
        None => Err(ProbeError::NoStream),
        Some(es) => match entry_count(lookup(es, "width"@)) {
            None => Err(ProbeError::MissingEntry),
            Some(w) => match entry_count(lookup(es, "height"@)) {
                None => Err(ProbeError::MissingEntry),
                Some(h) => Ok((w as u32, h as u32)),
            },
        },
    }
}

/// What `report_frame_count` returns: the `nb_read_frames` string of the first stream,
/// read as a `usize`.
pub open spec fn frame_count_spec(
    r: (Option<Seq<(Seq<char>, ProbeEntryView)>>, Seq<(Seq<char>, ProbeEntryView)>),
) -> Result<usize, ProbeError> {
    match r.0 {
        None => Err(ProbeError::NoStream),
        Some(es) => match entry_text(lookup(es, "nb_read_frames"@)) {
            None => Err(ProbeError::MissingEntry),
            Some(t) => match unsigned_spec(t) {
                Some(x) => if x <= usize::MAX {
                    Ok(x as usize)
                } else {
                    Err(ProbeError::Malformed)
                },
                None => Err(ProbeError::Malformed),
            },
        },
    }
}

/// The parts before and after the one slash of a text that has exactly one.
pub open spec fn ratio_parts(t: Seq<char>) -> (Seq<char>, Seq<char>) {
    let i = choose|i: int| 0 <= i < t.len() && t[i] == '/';
    (t.subrange(0, i), t.subrange(i + 1, t.len() as int))
}

/// What `report_rate_parts` returns: the `avg_frame_rate` string of the first stream,
/// split at its one slash.
pub open spec fn rate_spec(
    r: (Option<Seq<(Seq<char>, ProbeEntryView)>>, Seq<(Seq<char>, ProbeEntryView)>),
) -> Result<(Seq<char>, Seq<char>), ProbeError> {
    match r.0 {
        None => Err(ProbeError::NoStream),
        Some(es) => match entry_text(lookup(es, "avg_frame_rate"@)) {
            None => Err(ProbeError::MissingEntry),
            Some(t) => if count_char(t, '/', t.len() as int) == 1 {
                Ok(ratio_parts(t))
            } else {
                Err(ProbeError::Malformed)
            },
        },
    }
}

/// What `report_duration` returns: the `duration` string of the format.
pub open spec fn duration_spec(
    r: (Option<Seq<(Seq<char>, ProbeEntryView)>>, Seq<(Seq<char>, ProbeEntryView)>),
) -> Option<Seq<char>> {
    entry_text(lookup(r.1, "duration"@))
}

proof fn lemma_two_in_count(s: Seq<char>, c: char, k: int, i: int, j: int)
    requires
        0 <= i < k,
        0 <= j < k,
        k <= s.len(),
        i != j,
        s[i] == c,
        s[j] == c,
    ensures
        count_char(s, c, k) >= 2,
    decreases k,
{
    if i == k - 1 {
        lemma_one_in_count(s, c, k - 1, j);
    } else if j == k - 1 {
        lemma_one_in_count(s, c, k - 1, i);
    } else {
        lemma_two_in_count(s, c, k - 1, i, j);
    }
}

proof fn lemma_one_in_count(s: Seq<char>, c: char, k: int, i: int)
    requires
        0 <= i < k,
        k <= s.len(),
        s[i] == c,
    ensures
        count_char(s, c, k) >= 1,
    decreases k,
{
    if i < k - 1 {
        lemma_one_in_count(s, c, k - 1, i);
    }
}

/// The unsigned number under `key` in the first stream of a report, if there is a
/// stream and such a number.
pub open spec fn first_stream_number(
    r: (Option<Seq<(Seq<char>, ProbeEntryView)>>, Seq<(Seq<char>, ProbeEntryView)>),
    key: Seq<char>,
) -> Option<u64> {
    match r.0 {
        Some(es) => entry_count(lookup(es, key)),
        None => None,
    }
}

/// The size of a video is read as width first, height second: it is given exactly
/// when the first stream has both numbers; its first component is the `width`
/// number and its second the `height` number, each cut to 32 bits. Without a stream
/// the answer is `NoStream`, and with a stream that lacks either number it is
/// `MissingEntry`.
pub proof fn lemma_size_reads_width_then_height(
    r: (Option<Seq<(Seq<char>, ProbeEntryView)>>, Seq<(Seq<char>, ProbeEntryView)>),
)
    ensures
        size_spec(r) is Ok <==> (first_stream_number(r, "width"@) is Some
            && first_stream_number(r, "height"@) is Some),
        size_spec(r) matches Ok(p) ==> p.0 == first_stream_number(r, "width"@)->0 as u32
            && p.1 == first_stream_number(r, "height"@)->0 as u32,
        r.0 is None ==> size_spec(r) == Err::<(u32, u32), ProbeError>(ProbeError::NoStream),
        r.0 is Some && (first_stream_number(r, "width"@) is None || first_stream_number(
            r,
            "height"@,
        ) is None) ==> size_spec(r) == Err::<(u32, u32), ProbeError>(ProbeError::MissingEntry),
{
}

/// The width and height of the first stream.
pub fn report_size(r: &ProbeReport) -> (s: Result<(u32, u32), ProbeError>)
    ensures
        s == size_spec(r@),
        s is Ok <==> (first_stream_number(r@, "width"@) is Some && first_stream_number(
            r@,
            "height"@,
        ) is Some),
        s matches Ok(p) ==> p.0 == first_stream_number(r@, "width"@)->0 as u32 && p.1
            == first_stream_number(r@, "height"@)->0 as u32,
{
    proof {
        lemma_size_reads_width_then_height(r@);
    }
    match &r.first_stream {
        None => Err(ProbeError::NoStream),
        Some(es) => match entry_count_exec(find_entry(es, "width")) {
            None => Err(ProbeError::MissingEntry),
            Some(w) => match entry_count_exec(find_entry(es, "height")) {
                None => Err(ProbeError::MissingEntry),
                Some(h) => Ok((w as u32, h as u32)),
            },
        },
    }
}

/// The number of frames of the first stream.
pub fn report_frame_count(r: &ProbeReport) -> (s: Result<usize, ProbeError>)
    ensures
        s == frame_count_spec(r@),
{
    match &r.first_stream {
        None => Err(ProbeError::NoStream),
        Some(es) => match find_entry(es, "nb_read_frames") {
            Some(ProbeEntry::Text(t)) => match parse_unsigned(t.as_str()) {
                Some(x) => if x as u128 <= usize::MAX as u128 {
                    Ok(x as usize)
                } else {
                    Err(ProbeError::Malformed)
                },
                None => Err(ProbeError::Malformed),
            },
            _ => Err(ProbeError::MissingEntry),
        },
    }
}

/// The numerator and denominator of the frame rate of the first stream, as written.
pub fn report_rate_parts(r: &ProbeReport) -> (s: Result<(String, String), ProbeError>)
    ensures
        match rate_spec(r@) {
            Ok((a, b)) => s matches Ok((x, y)) && x@ == a && y@ == b,
            Err(e) => s == Err::<(String, String), ProbeError>(e),
        },
{
    match &r.first_stream {
        None => Err(ProbeError::NoStream),
        Some(es) => match find_entry(es, "avg_frame_rate") {
            Some(ProbeEntry::Text(t)) => match split_ratio(t.as_str()) {
                Some((a, b)) => {
                    proof {
                        let ts = t@;
                        let i = choose|i: int|
                            0 <= i < ts.len() && ts[i] == '/' && a@ == ts.subrange(0, i) && b@
                                == ts.subrange(i + 1, ts.len() as int);
                        let j = choose|j: int| 0 <= j < ts.len() && ts[j] == '/';
                        if i != j {
                            lemma_two_in_count(ts, '/', ts.len() as int, i, j);
                        }
                    }
                    Ok((String::from_str(a), String::from_str(b)))
                },
                None => Err(ProbeError::Malformed),
            },
            _ => Err(ProbeError::MissingEntry),
        },
    }
}

/// The duration of the format, as written.
pub fn report_duration(r: &ProbeReport) -> (s: Option<String>)
    ensures
        match duration_spec(r@) {
            Some(t) => s matches Some(x) && x@ == t,
            None => s is None,
        },
{
    match find_entry(&r.format, "duration") {
        Some(ProbeEntry::Text(t)) => Some(String::from_str(t.as_str())),
        _ => None,
    }
}

fn entry_exec(x: &Json) -> (r: ProbeEntry)
    ensures
        r@ == entry_of(json_view(*x)),
{
    match x {
        Json::Text(t) => ProbeEntry::Text(String::from_str(t.as_str())),
        Json::Number(t) => ProbeEntry::Number(String::from_str(t.as_str())),
        _ => ProbeEntry::Other,
    }
}

/// The member `key` of an object, if it has one.
fn find_member<'a>(j: &'a Json, key: &str) -> (r: Option<&'a Json>)
    ensures
        match r {
            Some(x) => member_of(json_view(*j), key@) == json_view(*x),
            None => member_of(json_view(*j), key@) == JsonView::Null,
        },
{
    match j {
        Json::Object(m) => {
            let ghost full = members_view(m@);
            proof {
                lemma_members_view(m@);
            }
            let n = m.len();
            let mut k: usize = 0;
            assert(full.subrange(0, n as int) =~= full);
            assert(json_view(*j) == JsonView::Object(full));
            while k < n
                invariant
                    json_view(*j) == JsonView::Object(full),
                    n == m@.len(),
                    full == members_view(m@),
                    full.len() == n,
                    forall|i: int| 0 <= i < n ==> #[trigger] full[i] == (m@[i].0@, json_view(m@[i].1)),
                    0 <= k <= n,
                    lookup(full, key@) == lookup(full.subrange(k as int, n as int), key@),
                decreases n - k,
            {
                let ghost rest = full.subrange(k as int, n as int);
                assert(rest[0] == full[k as int]);
                assert(rest.drop_first() =~= full.subrange(k + 1, n as int));
                if str_eq(m[k].0.as_str(), key) {
                    assert(json_view(*j) == JsonView::Object(full));
                    assert(lookup(rest, key@) == Some(full[k as int].1));
                    return Some(&m[k].1);
                }
                k = k + 1;
            }
            None
        },
        _ => None,
    }
}

/// The entries of an object; none for any other value.
fn entries_exec(j: Option<&Json>) -> (r: Vec<(String, ProbeEntry)>)
    ensures
        entries_view(r) == entries_of(
            match j {
                Some(x) => json_view(*x),
                None => JsonView::Null,
            },
        ),
{
    let mut out: Vec<(String, ProbeEntry)> = Vec::new();
    match j {
        Some(Json::Object(m)) => {
            let ghost full = members_view(m@);
            proof {
                lemma_members_view(m@);
            }
            let n = m.len();
            let mut k: usize = 0;
            while k < n
                invariant
                    n == m@.len(),
                    full == members_view(m@),
                    full.len() == n,
                    forall|i: int| 0 <= i < n ==> #[trigger] full[i] == (m@[i].0@, json_view(m@[i].1)),
                    0 <= k <= n,
                    out@.len() == k,
                    forall|i: int| 0 <= i < k ==> (#[trigger] out@[i]).0@ == full[i].0 && out@[i].1@
                        == entry_of(full[i].1),
                decreases n - k,
            {
                let key = String::from_str(m[k].0.as_str());
                let e = entry_exec(&m[k].1);
                assert(full[k as int] == (m@[k as int].0@, json_view(m@[k as int].1)));
                out.push((key, e));
                k = k + 1;
            }
            assert(json_view(*j.unwrap()) == JsonView::Object(full));
            assert(entries_view(out) =~= full.map_values(|e: (Seq<char>, JsonView)| entry_pair(e)));
            out
        },
        _ => out,
    }
}

/// The parts of a parsed report of ffprobe that the probing functions read.
pub fn report_of(j: &Json) -> (r: ProbeReport)
    ensures
        r@ == report_spec(json_view(*j)),
{
    let first_stream = match find_member(j, "streams") {
        Some(Json::Array(a)) => {
            proof {
                lemma_jsons_view(a@);
            }
            if a.len() > 0 {
                Some(entries_exec(Some(&a[0])))
            } else {
                None
            }
        },
        _ => None,
    };
    let format = entries_exec(find_member(j, "format"));
    ProbeReport { first_stream, format }
}

/// The width and height of the first video stream in ffprobe's output.
pub fn probe_size(stdout: &[u8]) -> (s: Result<(u32, u32), ProbeError>)
    ensures
        s == match parsed_json(stdout@) {
            None => Err(ProbeError::NotJson),
            Some(j) => size_spec(report_spec(j)),
        },
        s matches Ok(p) ==> parsed_json(stdout@) matches Some(j) && p.0 == first_stream_number(
            report_spec(j),
            "width"@,
        )->0 as u32 && p.1 == first_stream_number(report_spec(j), "height"@)->0 as u32,
{
    match parse_json(stdout) {
        None => Err(ProbeError::NotJson),
        Some(j) => report_size(&report_of(&j)),
    }
}

/// The number of frames of the first video stream in ffprobe's output.
pub fn probe_frame_count(stdout: &[u8]) -> (s: Result<usize, ProbeError>)
    ensures
        s == match parsed_json(stdout@) {
            None => Err(ProbeError::NotJson),
            Some(j) => frame_count_spec(report_spec(j)),
        },
{
    match parse_json(stdout) {
        None => Err(ProbeError::NotJson),
        Some(j) => report_frame_count(&report_of(&j)),
    }
}

/// The numerator and denominator of the frame rate in ffprobe's output, as written.
pub fn probe_rate_parts(stdout: &[u8]) -> (s: Result<(String, String), ProbeError>)
    ensures
        match parsed_json(stdout@) {
            None => s == Err::<(String, String), ProbeError>(ProbeError::NotJson),
            Some(j) => match rate_spec(report_spec(j)) {
                Ok((a, b)) => s matches Ok((x, y)) && x@ == a && y@ == b,
                Err(e) => s == Err::<(String, String), ProbeError>(e),
            },
        },
{
    match parse_json(stdout) {
        None => Err(ProbeError::NotJson),
        Some(j) => report_rate_parts(&report_of(&j)),
    }
}

/// The duration text of the format in ffprobe's output, if any.
pub fn probe_duration(stdout: &[u8]) -> (s: Result<Option<String>, ProbeError>)
    ensures
        match parsed_json(stdout@) {
            None => s == Err::<Option<String>, ProbeError>(ProbeError::NotJson),
            Some(j) => match duration_spec(report_spec(j)) {
                Some(t) => s matches Ok(Some(x)) && x@ == t,
                None => s == Ok::<Option<String>, ProbeError>(None),
            },
        },
{
    match parse_json(stdout) {
        None => Err(ProbeError::NotJson),
        Some(j) => Ok(report_duration(&report_of(&j))),
    }
}

} // verus!
