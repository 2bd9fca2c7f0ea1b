//! The proxy's work on the header maps that the HTTP library hands it.

use vstd::prelude::*;
use crate::headers::{
    backend_host, build_websocket_request, field_views, forward_updates, forward_updates_spec,
    has_header, header_text, lemma_lookup_skips, lemma_lookup_stops, lemma_position_of,
    lemma_position_of_is, pair_views, position_of, websocket_request_spec, HeaderField,
    HeaderFieldView,
};
use crate::text::{decimal, is_digit, lemma_decimal_is_digits, lower_seq, str_eq};

verus! {

/// `hyper::HeaderMap`, the header fields of a request or a response.
#[verifier::external_type_specification]
#[verifier::external_body]
#[verifier::reject_recursive_types(T)]
pub struct ExHeaderMap<T>(hyper::HeaderMap<T>);

/// `hyper::header::HeaderValue`, the value of one header field.
#[verifier::external_type_specification]
#[verifier::external_body]
pub struct ExHeaderValue(hyper::header::HeaderValue);

/// The fields that a header map holds, in the order in which it hands them
/// out: each with its name and, where the value is text, its value.
pub uninterp spec fn header_entries(map: hyper::HeaderMap<hyper::header::HeaderValue>) -> Seq<
    (Seq<char>, Option<Seq<char>>),
>;

/// The fields that a header map holds, in the order in which it hands them
/// out.
pub open spec fn map_fields(map: hyper::HeaderMap<hyper::header::HeaderValue>) -> Seq<
    HeaderFieldView,
> {
    Seq::new(
        header_entries(map).len(),
        |i: int| HeaderFieldView { name: header_entries(map)[i].0, value: header_entries(map)[i].1 },
    )
}

/// Whether `value` holds visible ASCII characters, spaces and tabs only.
pub open spec fn is_visible_text(value: Seq<char>) -> bool {
    forall|i: int|
        0 <= i < value.len() ==> (32 <= (#[trigger] value[i]) as u32 && (value[i] as u32) < 127)
            || value[i] == '\t'
}

/// What a header map hands out for a value that was stored as `value`:
/// the value where it is visible text, and no text else.
pub open spec fn stored_value(value: Seq<char>) -> Option<Seq<char>> {
    if is_visible_text(value) {
        Some(value)
    } else {
        None
    }
}

/// `fields` without the fields named `name`, in the same order.
pub open spec fn without_name(fields: Seq<HeaderFieldView>, name: Seq<char>) -> Seq<
    HeaderFieldView,
>
    decreases fields.len(),
{
    if fields.len() == 0 {
        Seq::empty()
    } else if fields.last().name == name {
        without_name(fields.drop_last(), name)
    } else {
        without_name(fields.drop_last(), name).push(fields.last())
    }
}

/// `fields` after the field `name` is set to `value`: where there is a
/// field of that name, the first one gets the value and the others go;
/// where there is none, the field is added at the end.
pub open spec fn with_field(
    fields: Seq<HeaderFieldView>,
    name: Seq<char>,
    value: Option<Seq<char>>,
) -> Seq<HeaderFieldView> {
    let i = position_of(fields, name);
    if i < fields.len() {
        fields.take(i).push(HeaderFieldView { name, value }) + without_name(
            fields.skip(i + 1),
            name,
        )
    } else {
        fields.push(HeaderFieldView { name, value })
    }
}

/// Walks `map` with `HeaderMap::iter` and copies each field: the name as
/// `HeaderName::as_str` gives it, the value as `HeaderValue::to_str` gives
/// it, and no value where that fails. The result is what [`header_entries`]
/// names.
#[verifier::external_body]
pub(crate) fn read_fields(map: &hyper::HeaderMap<hyper::header::HeaderValue>) -> (fields: Vec<HeaderField>)
    ensures
        field_views(fields@) == map_fields(*map),
{
    map.iter()
        .map(|(name, value)| HeaderField {
            name: name.as_str().to_string(),
            value: value.to_str().ok().map(|text| text.to_string()),
        })
        .collect()
}

/// Makes a name with `HeaderName::from_bytes` and a value with
/// `HeaderValue::from_str`, and sets the field with `HeaderMap::try_insert`.
/// Where one of them refuses, the map is as it was and `false` comes back:
/// the first two refuse what is no name or no value, the third only a map
/// without room. Where they accept, the name is stored in lower case, the
/// first field of that name gets the value and the others go, or the field
/// is added behind the others where there was none of that name.
#[verifier::external_body]
fn set_field(map: &mut hyper::HeaderMap<hyper::header::HeaderValue>, name: &str, value: &str) -> (done:
    bool)
    ensures
        done ==> is_header_name(name@) && is_header_value(value@) && map_fields(*final(map))
            == with_field(map_fields(*old(map)), lower_seq(name@), stored_value(value@)),
        !done ==> header_entries(*final(map)) == header_entries(*old(map)),
        is_header_name(name@) && is_header_value(value@) && header_entries(*old(map)).len()
            < ROOM_LIMIT ==> done,
{
    let name = hyper::header::HeaderName::from_bytes(name.as_bytes());
    let value = hyper::header::HeaderValue::from_str(value);
    match (name, value) {
        (Ok(name), Ok(value)) => map.try_insert(name, value).is_ok(),
        _ => false,
    }
}

/// Builds the request that opens a WebSocket tunnel to the backend on
/// `port`, for a client at `client_ip` that asked for `path` with `method`
/// and the header fields `headers`.
pub fn websocket_request(
    method: &str,
    path: &str,
    headers: &hyper::HeaderMap<hyper::header::HeaderValue>,
    port: u16,
    client_ip: &str,
) -> (request: String)
    ensures
        request@ == websocket_request_spec(method@, path@, map_fields(*headers), port, client_ip@),
{
    let fields = read_fields(headers);
    build_websocket_request(method, path, &fields, port, client_ip)
}

/// What came of setting one field.
#[derive(Debug, Clone, Copy, PartialEq, Eq, Structural)]
pub enum SetOutcome {
    /// The field has the value that was asked for.
    Applied,
    /// The value was refused, and the field has the fallback for its name.
    Fallback,
    /// The map is as it was.
    Skipped,
}

/// The value that a field gets where the one meant for it is refused.
pub open spec fn fallback_value(name: Seq<char>) -> Option<Seq<char>> {
    if name == "host"@ {
        Some("localhost"@)
    } else if name == "x-forwarded-for"@ || name == "x-forwarded-host"@ {
        Some("unknown"@)
    } else if name == "x-forwarded-port"@ {
        Some("80"@)
    } else {
        None
    }
}

/// The fields after one field was to be set to `update`, with `outcome`.
pub open spec fn after_update(
    fields: Seq<HeaderFieldView>,
    update: (Seq<char>, Seq<char>),
    outcome: SetOutcome,
) -> Seq<HeaderFieldView> {
    match outcome {
        SetOutcome::Applied => with_field(fields, lower_seq(update.0), stored_value(update.1)),
        SetOutcome::Fallback => match fallback_value(update.0) {
            Some(text) => with_field(fields, lower_seq(update.0), stored_value(text)),
            None => fields,
        },
        SetOutcome::Skipped => fields,
    }
}

/// The fields after the fields of `updates` were to be set, one after the
/// other, with `outcomes`.
pub open spec fn after_updates(
    fields: Seq<HeaderFieldView>,
    updates: Seq<(Seq<char>, Seq<char>)>,
    outcomes: Seq<SetOutcome>,
) -> Seq<HeaderFieldView>
    recommends
        updates.len() == outcomes.len(),
    decreases updates.len(),
{
    if updates.len() == 0 || outcomes.len() == 0 {
        fields
    } else {
        after_update(
            after_updates(fields, updates.drop_last(), outcomes.drop_last()),
            updates.last(),
            outcomes.last(),
        )
    }
}

/// The value that the field `name` gets where the one meant for it is
/// refused.
pub fn fallback_for(name: &str) -> (text: Option<&'static str>)
    ensures
        match text {
            Some(t) => fallback_value(name@) == Some(t@),
            None => fallback_value(name@) is None,
        },
{
    if str_eq(name, "host") {
        Some("localhost")
    } else if str_eq(name, "x-forwarded-for") || str_eq(name, "x-forwarded-host") {
        Some("unknown")
    } else if str_eq(name, "x-forwarded-port") {
        Some("80")
    } else {
        None
    }
}

/// Sets the field `name` of `headers` to `value`, or to the fallback for
/// the name where that is refused, and says which of the two it came to.
fn set_or_fall_back(
    headers: &mut hyper::HeaderMap<hyper::header::HeaderValue>,
    name: &str,
    value: &str,
) -> (outcome: SetOutcome)
    ensures
        map_fields(*final(headers))
            == after_update(map_fields(*old(headers)), (name@, value@), outcome),
        outcome == SetOutcome::Applied ==> is_header_name(name@) && is_header_value(value@),
        !is_header_name(name@) ==> outcome == SetOutcome::Skipped,
        has_room(*old(headers)) ==> outcome == owed_outcome(name@, value@),
{
    if set_field(headers, name, value) {
        return SetOutcome::Applied;
    }
    match fallback_for(name) {
        Some(text) => {
            if set_field(headers, name, text) {
                SetOutcome::Fallback
            } else {
                SetOutcome::Skipped
            }
        },
        None => SetOutcome::Skipped,
    }
}

/// Rewrites the header fields of a request from `client_ip` before it is
/// forwarded to the backend on `port`: `host` names the backend,
/// `x-forwarded-for` is extended by the client's address, and
/// `x-forwarded-proto`, `x-forwarded-host` and `x-forwarded-port` are set
/// where the request has none. What comes back says, for each of these
/// fields in turn, what came of setting it. In a map with room for them
/// every one of these fields is set: to the value meant for it, or to the
/// fallback for its name where the map refuses the value.
pub fn rewrite_for_backend(
    headers: &mut hyper::HeaderMap<hyper::header::HeaderValue>,
    port: u16,
    client_ip: &str,
) -> (outcomes: Vec<SetOutcome>)
    ensures
        outcomes.len() == forward_updates_spec(map_fields(*old(headers)), port, client_ip@).len(),
        map_fields(*final(headers)) == after_updates(
            map_fields(*old(headers)),
            forward_updates_spec(map_fields(*old(headers)), port, client_ip@),
            outcomes@,
        ),
        header_entries(*old(headers)).len() + 5 <= ROOM_LIMIT ==> forall|k: int|
            0 <= k < outcomes.len() ==> #[trigger] outcomes[k] == owed_outcome(
                forward_updates_spec(map_fields(*old(headers)), port, client_ip@)[k].0,
                forward_updates_spec(map_fields(*old(headers)), port, client_ip@)[k].1,
            ),
        header_entries(*old(headers)).len() + 5 <= ROOM_LIMIT ==> outcomes[0]
            == SetOutcome::Applied && forall|k: int|
            0 <= k < outcomes.len() ==> #[trigger] outcomes[k] != SetOutcome::Skipped,
        header_entries(*old(headers)).len() + 5 <= ROOM_LIMIT ==> header_text(
            map_fields(*final(headers)),
            "host"@,
        ) == Some(backend_host(port)),
        header_entries(*old(headers)).len() + 5 <= ROOM_LIMIT ==> forall|k: int|
            0 <= k < outcomes.len() ==> header_text(
                map_fields(*final(headers)),
                (#[trigger] forward_updates_spec(
                    map_fields(*old(headers)),
                    port,
                    client_ip@,
                )[k]).0,
            ) == value_set(
                forward_updates_spec(map_fields(*old(headers)), port, client_ip@)[k],
                outcomes[k],
            ),
{
    let fields = read_fields(headers);
    let updates = forward_updates(&fields, port, client_ip);
    let ghost start = map_fields(*headers);
    let ghost all = pair_views(updates@);
    let ghost roomy = header_entries(*headers).len() + 5 <= ROOM_LIMIT;
    let mut outcomes: Vec<SetOutcome> = Vec::new();
    let mut k: usize = 0;
    assert(all.take(0) =~= Seq::<(Seq<char>, Seq<char>)>::empty());
    while k < updates.len()
        invariant
            k <= updates.len() <= 5,
            outcomes.len() == k,
            all == pair_views(updates@),
            map_fields(*headers) == after_updates(start, all.take(k as int), outcomes@),
            map_fields(*headers).len() <= start.len() + k,
            start.len() == header_entries(*old(headers)).len(),
            roomy == (header_entries(*old(headers)).len() + 5 <= ROOM_LIMIT),
            roomy ==> forall|j: int|
                0 <= j < k ==> #[trigger] outcomes[j] == owed_outcome(all[j].0, all[j].1),
        decreases updates.len() - k,
    {
        let ghost before = outcomes@;
        let ghost fields_before = map_fields(*headers);
        let outcome = set_or_fall_back(headers, updates[k].0.as_str(), updates[k].1.as_str());
        outcomes.push(outcome);
        proof {
            assert(all.take(k + 1).drop_last() =~= all.take(k as int));
            assert(outcomes@.drop_last() =~= before);
            assert(all.take(k + 1).last() == (updates@[k as int].0@, updates@[k as int].1@));
            lemma_after_update_len(fields_before, all[k as int], outcome);
        }
        k = k + 1;
    }
    assert(all.take(updates.len() as int) =~= all);
    proof {
        assert forall|j: int| 0 <= j < all.len() implies owed_outcome(
            (#[trigger] all[j]).0,
            all[j].1,
        ) != SetOutcome::Skipped by {
            lemma_forward_updates_owed(start, port, client_ip@, j);
        }
        lemma_forward_updates_owed(start, port, client_ip@, 0);
        if roomy {
            lemma_forward_update_names_differ(start, port, client_ip@);
            assert forall|j: int| 0 <= j < all.len() implies header_text(
                map_fields(*headers),
                (#[trigger] all[j]).0,
            ) == value_set(all[j], outcomes@[j]) by {
                lemma_forward_updates_owed(start, port, client_ip@, j);
                assert(outcomes@[j] == owed_outcome(all[j].0, all[j].1));
                lemma_after_updates_lookup(start, all, outcomes@, j);
            }
            assert(all[0] == ("host"@, backend_host(port)));
        }
    }
    outcomes
}

/// Puts the proxy's marker on the header fields of a response. A map with
/// room takes it; where `false` comes back, the fields are as they were.
pub fn mark_response(headers: &mut hyper::HeaderMap<hyper::header::HeaderValue>) -> (done: bool)
    ensures
        done ==> map_fields(*final(headers)) == with_field(
            map_fields(*old(headers)),
            lower_seq("x-portless"@),
            stored_value("1"@),
        ),
        !done ==> map_fields(*final(headers)) == map_fields(*old(headers)),
        has_room(*old(headers)) ==> done,
        done ==> header_text(map_fields(*final(headers)), "x-portless"@) == Some("1"@),
{
    proof {
        reveal_strlit("x-portless");
        reveal_strlit("1");
        assert(is_header_name("x-portless"@));
        assert(is_header_value("1"@));
        assert(is_visible_text("1"@));
        assert(lower_seq("x-portless"@) =~= "x-portless"@);
        lemma_with_field_lookup(
            map_fields(*old(headers)),
            "x-portless"@,
            Some("1"@),
            Seq::empty(),
        );
    }
    set_field(headers, "x-portless", "1")
}

/// How many fields a header map can hold at least: a map that holds fewer
/// takes one more. `HeaderMap::try_insert` refuses only where the map's
/// table would have to grow beyond 32,768 slots, which takes this many
/// names, or where the map holds 32,768 names.
pub const ROOM_LIMIT: usize = 6554;

/// Whether `map` holds so few fields that it takes one more.
pub open spec fn has_room(map: hyper::HeaderMap<hyper::header::HeaderValue>) -> bool {
    header_entries(map).len() < ROOM_LIMIT
}

/// Whether `c` may stand in the name of a header field: a letter or a
/// digit of ASCII, or one of ``!#$%&'*+-.^_`|~``.
pub open spec fn is_name_char(c: char) -> bool {
    ||| 'a' <= c && c <= 'z'
    ||| 'A' <= c && c <= 'Z'
    ||| '0' <= c && c <= '9'
    ||| c == '!' || c == '#' || c == '$' || c == '%' || c == '&' || c == '\''
    ||| c == '*' || c == '+' || c == '-' || c == '.' || c == '^' || c == '_'
    ||| c == '`' || c == '|' || c == '~'
}

/// Whether `name` can be the name of a header field: it holds between 1
/// and 65,535 characters, each of which may stand in a name.
pub open spec fn is_header_name(name: Seq<char>) -> bool {
    &&& 0 < name.len() <= 65535
    &&& forall|i: int| 0 <= i < name.len() ==> is_name_char(#[trigger] name[i])
}

/// Whether `value` can be the value of a header field: it holds no
/// control character but the tab.
pub open spec fn is_header_value(value: Seq<char>) -> bool {
    forall|i: int|
        0 <= i < value.len() ==> (32 <= (#[trigger] value[i]) as u32 && value[i] as u32 != 127)
            || value[i] == '\t'
}

/// What setting the field `name` to `value` comes to in a map with room:
/// the value is applied where name and value are accepted, the fallback
/// for the name where only the value is refused and there is a fallback,
/// and nothing is done else.
pub open spec fn owed_outcome(name: Seq<char>, value: Seq<char>) -> SetOutcome {
    if !is_header_name(name) {
        SetOutcome::Skipped
    } else if is_header_value(value) {
        SetOutcome::Applied
    } else {
        match fallback_value(name) {
            Some(text) => if is_header_value(text) {
                SetOutcome::Fallback
            } else {
                SetOutcome::Skipped
            },
            None => SetOutcome::Skipped,
        }
    }
}

/// Every fallback is a value that a header map accepts and hands out again
/// as it is: where a name has a fallback, the field is never left unset in
/// a map with room.
pub proof fn lemma_fallbacks_are_values(name: Seq<char>, value: Seq<char>)
    requires
        is_header_name(name),
        fallback_value(name) is Some,
    ensures
        is_header_value(fallback_value(name)->0),
        stored_value(fallback_value(name)->0) == fallback_value(name),
        owed_outcome(name, value) != SetOutcome::Skipped,
{
    reveal_strlit("localhost");
    reveal_strlit("unknown");
    reveal_strlit("80");
}

/// Leaving fields out makes a list no longer.
pub proof fn lemma_without_name_len(fields: Seq<HeaderFieldView>, name: Seq<char>)
    ensures
        without_name(fields, name).len() <= fields.len(),
    decreases fields.len(),
{
    if fields.len() > 0 {
        lemma_without_name_len(fields.drop_last(), name);
    }
}

/// Setting one field makes a list longer by one field at most.
pub proof fn lemma_after_update_len(
    fields: Seq<HeaderFieldView>,
    update: (Seq<char>, Seq<char>),
    outcome: SetOutcome,
)
    ensures
        after_update(fields, update, outcome).len() <= fields.len() + 1,
{
    let name = lower_seq(update.0);
    lemma_position_of(fields, name);
    let i = position_of(fields, name);
    if i < fields.len() {
        lemma_without_name_len(fields.skip(i + 1), name);
    }
}

/// What is owed of the fields that a forwarded request gets, in a map with
/// room: none of them is left unset, for each is set to its value or, where
/// that is refused, to its fallback; `host`, the first of them, is set to
/// the backend's name, and `x-forwarded-proto`, where the request has
/// none, to `http`.
pub proof fn lemma_forward_updates_owed(
    fields: Seq<HeaderFieldView>,
    port: u16,
    client_ip: Seq<char>,
    k: int,
)
    requires
        0 <= k < forward_updates_spec(fields, port, client_ip).len(),
    ensures
        is_header_name(forward_updates_spec(fields, port, client_ip)[k].0),
        lower_seq(forward_updates_spec(fields, port, client_ip)[k].0) == forward_updates_spec(
            fields,
            port,
            client_ip,
        )[k].0,
        owed_outcome(
            forward_updates_spec(fields, port, client_ip)[k].0,
            forward_updates_spec(fields, port, client_ip)[k].1,
        ) != SetOutcome::Skipped,
        forward_updates_spec(fields, port, client_ip)[0] == ("host"@, backend_host(port)),
        owed_outcome("host"@, backend_host(port)) == SetOutcome::Applied,
        stored_value(backend_host(port)) == Some(backend_host(port)),
        forward_updates_spec(fields, port, client_ip)[k].0 == "x-forwarded-proto"@ ==> {
            &&& forward_updates_spec(fields, port, client_ip)[k].1 == "http"@
            &&& owed_outcome("x-forwarded-proto"@, "http"@) == SetOutcome::Applied
            &&& stored_value("http"@) == Some("http"@)
        },
{
    reveal_strlit("host");
    reveal_strlit("x-forwarded-for");
    reveal_strlit("x-forwarded-proto");
    reveal_strlit("x-forwarded-host");
    reveal_strlit("x-forwarded-port");
    reveal_strlit("http");
    reveal_strlit("localhost:");
    reveal_strlit("localhost");
    reveal_strlit("unknown");
    reveal_strlit("80");
    let updates = forward_updates_spec(fields, port, client_ip);
    let name = updates[k].0;
    assert(name == "host"@ || name == "x-forwarded-for"@ || name == "x-forwarded-proto"@ || name
        == "x-forwarded-host"@ || name == "x-forwarded-port"@);
    assert(is_header_name("host"@));
    assert(is_header_name("x-forwarded-for"@));
    assert(is_header_name("x-forwarded-proto"@));
    assert(is_header_name("x-forwarded-host"@));
    assert(is_header_name("x-forwarded-port"@));
    assert(lower_seq("host"@) =~= "host"@);
    assert(lower_seq("x-forwarded-for"@) =~= "x-forwarded-for"@);
    assert(lower_seq("x-forwarded-proto"@) =~= "x-forwarded-proto"@);
    assert(lower_seq("x-forwarded-host"@) =~= "x-forwarded-host"@);
    assert(lower_seq("x-forwarded-port"@) =~= "x-forwarded-port"@);
    lemma_decimal_is_digits(port as nat);
    let host = backend_host(port);
    assert forall|i: int| 0 <= i < host.len() implies 32 <= (#[trigger] host[i]) as u32 && (
    host[i] as u32) < 127 by {
        if i >= "localhost:"@.len() {
            assert(host[i] == decimal(port as nat)[i - "localhost:"@.len()]);
            assert(is_digit(decimal(port as nat)[i - "localhost:"@.len()]));
        }
    }
    assert(is_header_value(host));
    assert(is_visible_text(host));
    assert(is_header_value("http"@));
    assert(is_visible_text("http"@));
    if name == "x-forwarded-proto"@ {
        assert("x-forwarded-proto"@ != "host"@);
        assert("x-forwarded-proto"@ != "x-forwarded-for"@);
        assert("x-forwarded-proto"@ != "x-forwarded-host"@);
        assert("x-forwarded-proto"@ != "x-forwarded-port"@);
        assert(updates[k].1 == "http"@);
    } else {
        assert(fallback_value(name) is Some);
        lemma_fallbacks_are_values(name, updates[k].1);
    }
}

/// Leaving out the fields of one name changes nothing for another name.
pub proof fn lemma_without_name_lookup(
    fields: Seq<HeaderFieldView>,
    name: Seq<char>,
    other: Seq<char>,
)
    requires
        other != name,
    ensures
        has_header(without_name(fields, name), other) == has_header(fields, other),
        header_text(without_name(fields, name), other) == header_text(fields, other),
    decreases fields.len(),
{
    if fields.len() > 0 {
        let rest = fields.drop_last();
        let last = seq![fields.last()];
        let kept = without_name(rest, name);
        lemma_without_name_lookup(rest, name, other);
        assert(fields =~= rest + last);
        if fields.last().name != name {
            assert(without_name(fields, name) =~= kept + last);
        }
        if has_header(rest, other) {
            lemma_lookup_stops(rest, last, other);
            lemma_lookup_stops(kept, last, other);
        } else {
            lemma_position_of(rest, other);
            lemma_position_of(kept, other);
            lemma_lookup_skips(rest, last, other);
            lemma_lookup_skips(kept, last, other);
            if fields.last().name == name {
                lemma_position_of_is(last, other, 1);
            }
        }
    }
}

/// A field that was set is found under its name with the value it was
/// given, and setting it changes nothing for another name.
pub proof fn lemma_with_field_lookup(
    fields: Seq<HeaderFieldView>,
    name: Seq<char>,
    value: Option<Seq<char>>,
    other: Seq<char>,
)
    ensures
        has_header(with_field(fields, name, value), name),
        header_text(with_field(fields, name, value), name) == value,
        other != name ==> has_header(with_field(fields, name, value), other) == has_header(
            fields,
            other,
        ),
        other != name ==> header_text(with_field(fields, name, value), other) == header_text(
            fields,
            other,
        ),
{
    let field = HeaderFieldView { name, value };
    let one = seq![field];
    lemma_position_of(fields, name);
    lemma_position_of(fields, other);
    lemma_position_of_is(one, name, 0);
    let at = position_of(fields, name);
    if at < fields.len() {
        let head = fields.take(at).push(field);
        let tail = without_name(fields.skip(at + 1), name);
        assert(with_field(fields, name, value) == head + tail);
        lemma_position_of_is(head, name, at);
        lemma_lookup_stops(head, tail, name);
        if other != name {
            let found = position_of(fields, other);
            if found < at {
                assert(head[found] == fields[found]);
                lemma_position_of_is(head, other, found);
                lemma_lookup_stops(head, tail, other);
            } else {
                assert forall|j: int| 0 <= j < head.len() implies (#[trigger] head[j]).name
                    != other by {
                    if j < at {
                        assert(head[j] == fields[j]);
                    }
                }
                lemma_lookup_skips(head, tail, other);
                lemma_without_name_lookup(fields.skip(at + 1), name, other);
                assert(fields =~= fields.take(at + 1) + fields.skip(at + 1));
                assert forall|j: int| 0 <= j < at + 1 implies (#[trigger] fields.take(
                    at + 1,
                )[j]).name != other by {
                    assert(fields.take(at + 1)[j] == fields[j]);
                }
                lemma_lookup_skips(fields.take(at + 1), fields.skip(at + 1), other);
            }
        }
    } else {
        assert(with_field(fields, name, value) =~= fields + one);
        lemma_lookup_skips(fields, one, name);
        if other != name {
            if has_header(fields, other) {
                lemma_lookup_stops(fields, one, other);
            } else {
                lemma_lookup_skips(fields, one, other);
                lemma_position_of_is(one, other, 1);
            }
        }
    }
}

/// What a field holds once it was set with `outcome`: the value that was
/// meant for it, or the fallback for its name.
pub open spec fn value_set(update: (Seq<char>, Seq<char>), outcome: SetOutcome) -> Option<
    Seq<char>,
> {
    if outcome == SetOutcome::Applied {
        stored_value(update.1)
    } else {
        match fallback_value(update.0) {
            Some(text) => stored_value(text),
            None => None,
        }
    }
}

/// Whether `outcome` says that the field of `update` was set.
pub open spec fn was_set(update: (Seq<char>, Seq<char>), outcome: SetOutcome) -> bool {
    outcome == SetOutcome::Applied || (outcome == SetOutcome::Fallback && fallback_value(
        update.0,
    ) is Some)
}

/// Whether no two of `updates` are for the same field.
pub open spec fn names_differ(updates: Seq<(Seq<char>, Seq<char>)>) -> bool {
    forall|i: int, j: int|
        0 <= i < j < updates.len() ==> lower_seq(updates[i].0) != lower_seq(updates[j].0)
}

/// After one field was to be set, it holds what it was set to where it was
/// set, and every other field holds what it held.
pub proof fn lemma_after_update_lookup(
    fields: Seq<HeaderFieldView>,
    update: (Seq<char>, Seq<char>),
    outcome: SetOutcome,
    other: Seq<char>,
)
    ensures
        was_set(update, outcome) ==> has_header(
            after_update(fields, update, outcome),
            lower_seq(update.0),
        ) && header_text(after_update(fields, update, outcome), lower_seq(update.0)) == value_set(
            update,
            outcome,
        ),
        other != lower_seq(update.0) ==> has_header(after_update(fields, update, outcome), other)
            == has_header(fields, other) && header_text(
            after_update(fields, update, outcome),
            other,
        ) == header_text(fields, other),
{
    let name = lower_seq(update.0);
    lemma_with_field_lookup(fields, name, stored_value(update.1), other);
    if fallback_value(update.0) is Some {
        lemma_with_field_lookup(fields, name, stored_value(fallback_value(update.0)->0), other);
    }
}

/// After several fields were to be set, a field that none of them names
/// holds what it held.
pub proof fn lemma_after_updates_keep(
    fields: Seq<HeaderFieldView>,
    updates: Seq<(Seq<char>, Seq<char>)>,
    outcomes: Seq<SetOutcome>,
    other: Seq<char>,
)
    requires
        updates.len() == outcomes.len(),
        forall|k: int| 0 <= k < updates.len() ==> lower_seq((#[trigger] updates[k]).0) != other,
    ensures
        has_header(after_updates(fields, updates, outcomes), other) == has_header(fields, other),
        header_text(after_updates(fields, updates, outcomes), other) == header_text(fields, other),
    decreases updates.len(),
{
    if updates.len() > 0 {
        let before = updates.drop_last();
        assert forall|k: int| 0 <= k < before.len() implies lower_seq((#[trigger] before[k]).0)
            != other by {
            assert(before[k] == updates[k]);
        }
        lemma_after_updates_keep(fields, before, outcomes.drop_last(), other);
        assert(updates.last() == updates[updates.len() - 1]);
        lemma_after_update_lookup(
            after_updates(fields, before, outcomes.drop_last()),
            updates.last(),
            outcomes.last(),
            other,
        );
    }
}

/// After several fields were to be set, no two of them the same, each
/// field that was set holds what it was set to.
pub proof fn lemma_after_updates_lookup(
    fields: Seq<HeaderFieldView>,
    updates: Seq<(Seq<char>, Seq<char>)>,
    outcomes: Seq<SetOutcome>,
    k: int,
)
    requires
        updates.len() == outcomes.len(),
        0 <= k < updates.len(),
        names_differ(updates),
        was_set(updates[k], outcomes[k]),
    ensures
        has_header(after_updates(fields, updates, outcomes), lower_seq(updates[k].0)),
        header_text(after_updates(fields, updates, outcomes), lower_seq(updates[k].0))
            == value_set(updates[k], outcomes[k]),
    decreases updates.len(),
{
    let before = updates.drop_last();
    let earlier = after_updates(fields, before, outcomes.drop_last());
    assert(updates.last() == updates[updates.len() - 1]);
    assert(outcomes.last() == outcomes[outcomes.len() - 1]);
    if k == updates.len() - 1 {
        lemma_after_update_lookup(earlier, updates.last(), outcomes.last(), Seq::empty());
    } else {
        assert(before[k] == updates[k]);
        assert(outcomes.drop_last()[k] == outcomes[k]);
        assert forall|i: int, j: int| 0 <= i < j < before.len() implies lower_seq(before[i].0)
            != lower_seq(before[j].0) by {
            assert(before[i] == updates[i] && before[j] == updates[j]);
        }
        lemma_after_updates_lookup(fields, before, outcomes.drop_last(), k);
        lemma_after_update_lookup(
            earlier,
            updates.last(),
            outcomes.last(),
            lower_seq(updates[k].0),
        );
    }
}

/// No two of the fields that a forwarded request gets are the same.
pub proof fn lemma_forward_update_names_differ(
    fields: Seq<HeaderFieldView>,
    port: u16,
    client_ip: Seq<char>,
)
    ensures
        names_differ(forward_updates_spec(fields, port, client_ip)),
{
    reveal_strlit("host");
    reveal_strlit("x-forwarded-for");
    reveal_strlit("x-forwarded-proto");
    reveal_strlit("x-forwarded-host");
    reveal_strlit("x-forwarded-port");
    let updates = forward_updates_spec(fields, port, client_ip);
    assert(lower_seq("host"@) =~= "host"@);
    assert(lower_seq("x-forwarded-for"@) =~= "x-forwarded-for"@);
    assert(lower_seq("x-forwarded-proto"@) =~= "x-forwarded-proto"@);
    assert(lower_seq("x-forwarded-host"@) =~= "x-forwarded-host"@);
    assert(lower_seq("x-forwarded-port"@) =~= "x-forwarded-port"@);
    assert("x-forwarded-for"@[12] == 'f');
    assert("x-forwarded-proto"@[12] == 'p');
    assert("x-forwarded-proto"@[13] == 'r');
    assert("x-forwarded-host"@[12] == 'h');
    assert("x-forwarded-port"@[13] == 'o');
    assert forall|i: int, j: int| 0 <= i < j < updates.len() implies lower_seq(updates[i].0)
        != lower_seq(updates[j].0) by {
        let pi = updates[i];
        let pj = updates[j];
        assert(i == 0 ==> pi.0 == "host"@);
        assert(i == 1 ==> pi.0 == "x-forwarded-for"@);
        assert(j == 1 ==> pj.0 == "x-forwarded-for"@);
    }
}

} // verus!
