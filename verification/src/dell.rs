//! Talking to Dell: the requests for a bearer token and for the warranty
//! entitlements of a list of service tags, and reading the warranty end date
//! of each machine out of the answer.
use vstd::prelude::*;
use vstd::utf8::{decode_utf8, encode_utf8, is_ascii_chars, is_char_boundary, pop_first_scalar};

use crate::text::{join, push_joined, string_views};

verus! {

/// One warranty entitlement of a machine; the dates are ISO 8601 timestamps.
#[derive(Debug)]
pub struct DellEntitlements {
    pub start_date: String,
    pub end_date: String,
}

/// What Dell knows of one service tag.
#[derive(Debug)]
pub struct DellObject {
    pub service_tag: String,
    pub ship_date: Option<String>,
    pub entitlements: Option<Vec<DellEntitlements>>,
}

/// The answer of the Dell entitlements API: one object per service tag.
pub type DellResult = Vec<DellObject>;

/// True when the object lists at least one entitlement.
pub open spec fn has_entitlement(object: DellObject) -> bool {
    object.entitlements matches Some(es) && es.len() > 0
}

/// The end date of the first entitlement of an object that has one.
pub open spec fn first_end_date(object: DellObject) -> Seq<char>
    recommends
        has_entitlement(object),
{
    object.entitlements.unwrap()@[0].end_date@
}

/// The number of bytes of an end date that hold the day (`YYYY-MM-DD`).
pub const DATE_BYTES: usize = 10;

/// True when the first ten bytes of `s` end on a character boundary, so that
/// they can be cut off as a string of their own.
pub open spec fn date_cut_ok(s: Seq<char>) -> bool {
    is_char_boundary(encode_utf8(s), DATE_BYTES as int)
}

/// The string that the first ten bytes of `s` make up.
pub open spec fn date_prefix(s: Seq<char>) -> Seq<char> {
    decode_utf8(encode_utf8(s).subrange(0, DATE_BYTES as int))
}

/// True when the day of every first entitlement in `objects` can be cut off.
pub open spec fn end_dates_cut_ok(objects: Seq<DellObject>) -> bool {
    forall|i: int|
        0 <= i < objects.len() && has_entitlement(#[trigger] objects[i]) ==> date_cut_ok(
            first_end_date(objects[i]),
        )
}

/// For every object with an entitlement, in order: its service tag and the day
/// its first entitlement ends.
pub open spec fn warranty_records(objects: Seq<DellObject>) -> Seq<(Seq<char>, Seq<char>)>
    decreases objects.len(),
{
    if objects.len() == 0 {
        Seq::empty()
    } else {
        let prev = warranty_records(objects.drop_last());
        let last = objects.last();
        if has_entitlement(last) {
            prev.push((last.service_tag@, date_prefix(first_end_date(last))))
        } else {
            prev
        }
    }
}

/// Reading an answer keeps, in order, exactly the objects that list at least
/// one entitlement, however many they list, and gives for each its service tag
/// and the string that the first ten bytes of its first entitlement's end date
/// make up.
pub proof fn lemma_warranty_records_law(objects: Seq<DellObject>)
    ensures
        warranty_records(objects) == objects.filter(
            |o: DellObject| o.entitlements is Some && o.entitlements.unwrap()@.len() > 0,
        ).map_values(
            |o: DellObject|
                (
                    o.service_tag@,
                    decode_utf8(encode_utf8(o.entitlements.unwrap()@[0].end_date@).subrange(0, 10)),
                ),
        ),
    decreases objects.len(),
{
    reveal(Seq::filter);
    let pred = |o: DellObject| o.entitlements is Some && o.entitlements.unwrap()@.len() > 0;
    let f = |o: DellObject|
        (
            o.service_tag@,
            decode_utf8(encode_utf8(o.entitlements.unwrap()@[0].end_date@).subrange(0, 10)),
        );
    if objects.len() == 0 {
        assert(objects.filter(pred).map_values(f) =~= Seq::empty());
    } else {
        lemma_warranty_records_law(objects.drop_last());
        let prev = objects.drop_last().filter(pred);
        if pred(objects.last()) {
            assert(objects.filter(pred) == prev.push(objects.last()));
            assert(prev.push(objects.last()).map_values(f) =~= prev.map_values(f).push(
                f(objects.last()),
            ));
        } else {
            assert(objects.filter(pred) == prev);
        }
    }
}

/// What a list of string pairs holds.
pub open spec fn pair_views(v: Seq<(String, String)>) -> Seq<(Seq<char>, Seq<char>)> {
    v.map_values(|p: (String, String)| (p.0@, p.1@))
}

/// The day (the first ten bytes) of an end date.
fn end_day(end_date: &String) -> (day: String)
    requires
        date_cut_ok(end_date@),
    ensures
        day@ == date_prefix(end_date@),
{
    let (head, _) = end_date.as_str().split_at(DATE_BYTES);
    proof {
        vstd::utf8::encode_utf8_decode_utf8(head@);
    }
    head.to_owned()
}

/// The bytes of two strings put together are the bytes of the first, then those of the second.
proof fn lemma_encode_concat(a: Seq<char>, b: Seq<char>)
    ensures
        encode_utf8(a + b) == encode_utf8(a) + encode_utf8(b),
    decreases a.len(),
{
    if a.len() == 0 {
        assert(a + b =~= b);
        assert(encode_utf8(a) + encode_utf8(b) =~= encode_utf8(b));
    } else {
        lemma_encode_concat(a.drop_first(), b);
        assert((a + b).drop_first() =~= a.drop_first() + b);
        assert((a + b)[0] == a[0]);
        assert(encode_utf8(a + b) =~= encode_utf8(a) + encode_utf8(b));
    }
}

/// The bytes of a prefix end on a character boundary of the whole string.
proof fn lemma_prefix_ends_on_boundary(a: Seq<char>, b: Seq<char>)
    ensures
        is_char_boundary(encode_utf8(a + b), encode_utf8(a).len() as int),
    decreases a.len(),
{
    broadcast use vstd::utf8::encode_utf8_valid_utf8;

    if a.len() > 0 {
        let chars = a + b;
        let bytes = encode_utf8(chars);
        vstd::utf8::encode_utf8_first_scalar(chars);
        assert(pop_first_scalar(bytes) =~= encode_utf8(chars.drop_first()));
        assert(chars.drop_first() =~= a.drop_first() + b);
        assert(chars[0] == a[0]);
        lemma_prefix_ends_on_boundary(a.drop_first(), b);
        lemma_encode_concat(a, b);
    }
}

/// An end date written in ASCII with at least ten characters (such as
/// `2026-03-01T00:00:00Z`) can be cut, and its day is its first ten characters.
pub proof fn lemma_ascii_end_day(s: Seq<char>)
    requires
        is_ascii_chars(s),
        s.len() >= DATE_BYTES,
    ensures
        date_cut_ok(s),
        date_prefix(s) == s.take(DATE_BYTES as int),
{
    broadcast use vstd::utf8::encode_utf8_decode_utf8;

    let head = s.take(DATE_BYTES as int);
    let tail = s.skip(DATE_BYTES as int);
    assert(s =~= head + tail);
    assert(is_ascii_chars(head));
    vstd::utf8::is_ascii_chars_encode_utf8(head);
    lemma_encode_concat(head, tail);
    lemma_prefix_ends_on_boundary(head, tail);
    assert(encode_utf8(s).subrange(0, DATE_BYTES as int) =~= encode_utf8(head));
}

/// True when the day of every first entitlement of the answer can be cut
/// off, that is, when `map_to_serial_and_enddate` accepts the answer.
pub fn end_dates_can_be_cut(dell_result: &DellResult) -> (ok: bool)
    ensures
        ok == end_dates_cut_ok(dell_result@),
{
    let n = dell_result.len();
    let mut i: usize = 0;
    while i < n
        invariant
            n == dell_result.len(),
            i <= n,
            forall|j: int|
                0 <= j < i && has_entitlement(#[trigger] dell_result@[j]) ==> date_cut_ok(
                    first_end_date(dell_result@[j]),
                ),
        decreases n - i,
    {
        match &dell_result[i].entitlements {
            Some(entitlements) => {
                if entitlements.len() > 0 {
                    if !entitlements[0].end_date.as_str().is_char_boundary(DATE_BYTES) {
                        assert(has_entitlement(dell_result@[i as int]));
                        return false;
                    }
                }
            },
            None => {},
        }
        i = i + 1;
    }
    true
}

/// An answer can be read exactly when, for every object that lists an
/// entitlement, byte ten of its first entitlement's end date is a character
/// boundary (which holds, among others, for every ASCII date of ten or more
/// characters).
pub proof fn lemma_end_dates_cut_ok_law(objects: Seq<DellObject>)
    ensures
        end_dates_cut_ok(objects) <==> forall|i: int|
            0 <= i < objects.len() && (#[trigger] objects[i]).entitlements is Some
                && objects[i].entitlements.unwrap()@.len() > 0 ==> is_char_boundary(
                encode_utf8(objects[i].entitlements.unwrap()@[0].end_date@),
                10,
            ),
{
}

/// The service tag and warranty end day of every machine of the answer that
/// has an entitlement. Machines with several entitlements give the end day of
/// the first one; machines without any are skipped.
pub fn map_to_serial_and_enddate(dell_result: DellResult) -> (computers: Vec<(String, String)>)
    requires
        end_dates_cut_ok(dell_result@),
    ensures
        pair_views(computers@) == warranty_records(dell_result@),
{
    let ghost objects = dell_result@;
    let mut computers: Vec<(String, String)> = Vec::new();
    let n = dell_result.len();
    let mut i: usize = 0;
    while i < n
        invariant
            n == dell_result.len(),
            objects == dell_result@,
            end_dates_cut_ok(objects),
            i <= n,
            pair_views(computers@) == warranty_records(objects.take(i as int)),
        decreases n - i,
    {
        let object = &dell_result[i];
        assert(objects.take(i + 1).drop_last() =~= objects.take(i as int));
        assert(objects.take(i + 1).last() == objects[i as int]);
        match &object.entitlements {
            Some(entitlements) => {
                if entitlements.len() > 0 {
                    assert(has_entitlement(objects[i as int]));
                    let day = end_day(&entitlements[0].end_date);
                    let record = (object.service_tag.clone(), day);
                    let ghost before = computers@;
                    computers.push(record);
                    assert(pair_views(computers@) =~= pair_views(before).push(
                        (object.service_tag@, date_prefix(first_end_date(objects[i as int]))),
                    ));
                }
            },
            None => {},
        }
        i = i + 1;
    }
    assert(objects.take(n as int) =~= objects);
    computers
}

/// The Dell API that answers with the warranty entitlements of service tags.
pub const ENTITLEMENTS_URL: &'static str =
    "https://apigtwb2c.us.dell.com/PROD/sbil/eapi/v5/asset-entitlements?";

/// The Dell API that hands out bearer tokens.
pub const TOKEN_URL: &'static str = "https://apigtwb2c.us.dell.com/auth/oauth/v2/token";

/// The query that asks for the entitlements of `serials`: `servicetags=`
/// then the serial numbers separated by commas.
pub open spec fn spec_service_tag_query(serials: Seq<String>) -> Seq<char> {
    "servicetags="@ + join(string_views(serials), ","@)
}

/// The query that asks for the entitlements of `serials`.
pub fn service_tag_query(serials: &Vec<String>) -> (query: String)
    ensures
        query@ == spec_service_tag_query(serials@),
{
    let mut query = String::from_str("servicetags=");
    push_joined(&mut query, serials, ",");
    query
}

/// The query for tags: `servicetags=` alone for no tag, `servicetags=` and the
/// tag for one, and each further tag added after a comma, whatever the number
/// of tags before it.
pub proof fn lemma_service_tag_query_law(serials: Seq<String>, s: String)
    ensures
        spec_service_tag_query(Seq::empty()) == "servicetags="@,
        spec_service_tag_query(seq![s]) == "servicetags="@ + s@,
        serials.len() > 0 ==> spec_service_tag_query(serials.push(s)) == spec_service_tag_query(
            serials,
        ) + ","@ + s@,
{
    assert(string_views(Seq::<String>::empty()) =~= Seq::<Seq<char>>::empty());
    assert(string_views(seq![s]) =~= seq![s@]);
    assert(join(Seq::<Seq<char>>::empty(), ","@) =~= Seq::<char>::empty());
    assert("servicetags="@ + Seq::<char>::empty() =~= "servicetags="@);
    if serials.len() > 0 {
        let v = string_views(serials.push(s));
        assert(v.drop_last() =~= string_views(serials));
        assert(v.last() == s@);
        assert(spec_service_tag_query(serials.push(s)) =~= spec_service_tag_query(serials) + ","@
            + s@);
    }
}

/// The URL that asks for the entitlements of `serials`.
pub fn entitlements_url(serials: &Vec<String>) -> (url: String)
    ensures
        url@ == ENTITLEMENTS_URL@ + spec_service_tag_query(serials@),
{
    let mut url = String::from_str(ENTITLEMENTS_URL);
    let query = service_tag_query(serials);
    url.append(query.as_str());
    url
}

/// The value of the `Authorization` header for a bearer token.
pub fn bearer_authorization(token: &str) -> (header: String)
    ensures
        header@ == "Bearer "@ + token@,
{
    let mut header = String::from_str("Bearer ");
    header.append(token);
    header
}

/// The form that asks Dell for a bearer token with the client credentials
/// `dell_id` and `dell_secret`.
pub fn token_request_form(dell_id: String, dell_secret: String) -> (form: Vec<(String, String)>)
    ensures
        pair_views(form@) == seq![
            ("client_id"@, dell_id@),
            ("client_secret"@, dell_secret@),
            ("grant_type"@, "client_credentials"@),
        ],
{
    let mut form: Vec<(String, String)> = Vec::new();
    form.push((String::from_str("client_id"), dell_id));
    form.push((String::from_str("client_secret"), dell_secret));
    form.push((String::from_str("grant_type"), String::from_str("client_credentials")));
    assert(pair_views(form@) =~= seq![
        ("client_id"@, form@[0].1@),
        ("client_secret"@, form@[1].1@),
        ("grant_type"@, "client_credentials"@),
    ]);
    form
}

} // verus!
