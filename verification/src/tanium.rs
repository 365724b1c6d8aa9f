//! Talking to Tanium: the GraphQL requests that page through the Dell
//! endpoints, reading the answers into a list of computers, and the import
//! request that writes warranty end dates to Tanium Asset.
use vstd::prelude::*;
use vstd::utf8::encode_utf8;

use crate::text::{join, push_joined, string_views};

verus! {

/// One endpoint as Tanium describes it.
#[derive(Debug)]
pub struct TaniumNodes {
    pub serial_number: String,
    pub name: String,
}

/// One edge of the endpoint list.
#[derive(Debug)]
pub struct TaniumEdges {
    pub node: TaniumNodes,
}

/// Where the next page of endpoints starts, if there is one.
#[derive(Debug)]
pub struct TaniumPageInfo {
    pub has_next_page: bool,
    pub end_cursor: String,
}

/// One page of endpoints.
#[derive(Debug)]
pub struct TaniumEndpoints {
    pub edges: Vec<TaniumEdges>,
    pub page_info: TaniumPageInfo,
}

/// The `data` member of an answer.
#[derive(Debug)]
pub struct TaniumData {
    pub endpoints: TaniumEndpoints,
}

/// One answer of the Tanium API to an endpoint query.
#[derive(Debug)]
pub struct TaniumResponse {
    pub data: TaniumData,
}

/// A Dell machine: its name and its serial number (its service tag).
#[derive(Debug, Clone)]
pub struct Computer {
    pub name: String,
    pub serial_number: String,
}

impl View for Computer {
    /// The name, then the serial number.
    type V = (Seq<char>, Seq<char>);

    open spec fn view(&self) -> (Seq<char>, Seq<char>) {
        (self.name@, self.serial_number@)
    }
}

/// What a list of computers holds: one (name, serial) pair each.
pub open spec fn computer_views(v: Seq<Computer>) -> Seq<(Seq<char>, Seq<char>)> {
    v.map_values(|c: Computer| c@)
}

/// The length of a string in bytes, as `str::len` reports it.
pub open spec fn byte_len(s: Seq<char>) -> usize {
    encode_utf8(s).len() as usize
}

/// Dell service tags are seven bytes long; other serial numbers are skipped.
pub open spec fn is_service_tag(serial: Seq<char>) -> bool {
    byte_len(serial) == 7
}

/// The computers of a list of edges whose serial number is a service tag, in order.
pub open spec fn edge_candidates(edges: Seq<TaniumEdges>) -> Seq<(Seq<char>, Seq<char>)>
    decreases edges.len(),
{
    if edges.len() == 0 {
        Seq::empty()
    } else {
        let node = edges.last().node;
        let prev = edge_candidates(edges.drop_last());
        if is_service_tag(node.serial_number@) {
            prev.push((node.name@, node.serial_number@))
        } else {
            prev
        }
    }
}

/// The computers of all answers whose serial number is a service tag, in order.
pub open spec fn response_candidates(rs: Seq<TaniumResponse>) -> Seq<(Seq<char>, Seq<char>)>
    decreases rs.len(),
{
    if rs.len() == 0 {
        Seq::empty()
    } else {
        response_candidates(rs.drop_last()) + edge_candidates(rs.last().data.endpoints.edges@)
    }
}

/// True when a computer before position `i` has the serial number of the one at `i`.
pub open spec fn serial_seen_before(cs: Seq<(Seq<char>, Seq<char>)>, i: int) -> bool {
    exists|j: int| 0 <= j < i && #[trigger] cs[j].1 == cs[i].1
}

/// The first computer of each serial number, in order.
pub open spec fn first_by_serial(cs: Seq<(Seq<char>, Seq<char>)>) -> Seq<(Seq<char>, Seq<char>)>
    decreases cs.len(),
{
    if cs.len() == 0 {
        Seq::empty()
    } else {
        let prev = first_by_serial(cs.drop_last());
        if serial_seen_before(cs, cs.len() - 1) {
            prev
        } else {
            prev.push(cs.last())
        }
    }
}

/// True when some computer of `cs` has the serial number `serial`.
pub open spec fn has_serial(cs: Seq<(Seq<char>, Seq<char>)>, serial: Seq<char>) -> bool {
    exists|k: int| 0 <= k < cs.len() && #[trigger] cs[k].1 == serial
}

/// Keeping the first computer of each serial number keeps every serial number.
pub proof fn lemma_first_by_serial_serials(cs: Seq<(Seq<char>, Seq<char>)>, serial: Seq<char>)
    ensures
        has_serial(first_by_serial(cs), serial) <==> has_serial(cs, serial),
    decreases cs.len(),
{
    if cs.len() > 0 {
        let prev_cs = cs.drop_last();
        lemma_first_by_serial_serials(prev_cs, serial);
        let prev = first_by_serial(prev_cs);
        let all = first_by_serial(cs);
        let last = cs.len() - 1;
        assert(forall|k: int| 0 <= k < prev.len() ==> all[k] == prev[k]);
        if has_serial(prev, serial) {
            let k = choose|k: int| 0 <= k < prev.len() && #[trigger] prev[k].1 == serial;
            assert(all[k].1 == serial);
        }
        if has_serial(prev_cs, serial) {
            let k = choose|k: int| 0 <= k < prev_cs.len() && #[trigger] prev_cs[k].1 == serial;
            assert(cs[k].1 == serial);
        }
        if has_serial(cs, serial) {
            let k = choose|k: int| 0 <= k < cs.len() && #[trigger] cs[k].1 == serial;
            if k < last {
                assert(prev_cs[k].1 == serial);
            } else if serial_seen_before(cs, last) {
                let j = choose|j: int| 0 <= j < last && #[trigger] cs[j].1 == cs[last].1;
                assert(prev_cs[j].1 == serial);
            } else {
                assert(all[prev.len() as int].1 == serial);
            }
        }
        if has_serial(all, serial) {
            let k = choose|k: int| 0 <= k < all.len() && #[trigger] all[k].1 == serial;
            if k < prev.len() {
                assert(prev[k].1 == serial);
            } else {
                assert(cs[last].1 == serial);
            }
        }
    }
}

/// Every computer kept is one of the candidates.
proof fn lemma_first_by_serial_subset(cs: Seq<(Seq<char>, Seq<char>)>)
    ensures
        forall|k: int|
            0 <= k < first_by_serial(cs).len() ==> cs.contains(#[trigger] first_by_serial(cs)[k]),
    decreases cs.len(),
{
    if cs.len() > 0 {
        let prev_cs = cs.drop_last();
        lemma_first_by_serial_subset(prev_cs);
        let prev = first_by_serial(prev_cs);
        let all = first_by_serial(cs);
        assert forall|k: int| 0 <= k < all.len() implies cs.contains(#[trigger] all[k]) by {
            if k < prev.len() {
                assert(all[k] == prev[k]);
                let j = choose|j: int| 0 <= j < prev_cs.len() && prev_cs[j] == prev[k];
                assert(cs[j] == prev_cs[j]);
            } else {
                assert(all[k] == cs[cs.len() - 1]);
            }
        }
    }
}

/// No two computers kept share a serial number.
proof fn lemma_first_by_serial_distinct(cs: Seq<(Seq<char>, Seq<char>)>)
    ensures
        forall|i: int, j: int|
            0 <= i < j < first_by_serial(cs).len() ==> #[trigger] first_by_serial(cs)[i].1
                != #[trigger] first_by_serial(cs)[j].1,
    decreases cs.len(),
{
    if cs.len() > 0 {
        let prev_cs = cs.drop_last();
        lemma_first_by_serial_distinct(prev_cs);
        let prev = first_by_serial(prev_cs);
        let all = first_by_serial(cs);
        let last = cs.len() - 1;
        if !serial_seen_before(cs, last) {
            lemma_first_by_serial_serials(prev_cs, cs[last].1);
            assert forall|i: int, j: int| 0 <= i < j < all.len() implies #[trigger] all[i].1
                != #[trigger] all[j].1 by {
                assert(all[i] == prev[i]);
                if j < prev.len() {
                    assert(all[j] == prev[j]);
                } else {
                    if prev[i].1 == cs[last].1 {
                        assert(has_serial(prev, cs[last].1));
                        let k = choose|k: int| 0 <= k < prev_cs.len() && #[trigger] prev_cs[k].1 == cs[last].1;
                        assert(cs[k].1 == cs[last].1);
                    }
                }
            }
        }
    }
}

/// Every candidate of a list of edges has a service tag for serial number.
proof fn lemma_edge_candidates_tags(edges: Seq<TaniumEdges>)
    ensures
        forall|k: int|
            0 <= k < edge_candidates(edges).len() ==> is_service_tag(
                #[trigger] edge_candidates(edges)[k].1,
            ),
    decreases edges.len(),
{
    if edges.len() > 0 {
        let prev = edge_candidates(edges.drop_last());
        lemma_edge_candidates_tags(edges.drop_last());
        assert forall|k: int| 0 <= k < edge_candidates(edges).len() implies is_service_tag(
            #[trigger] edge_candidates(edges)[k].1,
        ) by {
            if k < prev.len() {
                assert(edge_candidates(edges)[k] == prev[k]);
            }
        }
    }
}

/// Every candidate of a list of answers has a service tag for serial number.
proof fn lemma_response_candidates_tags(rs: Seq<TaniumResponse>)
    ensures
        forall|k: int|
            0 <= k < response_candidates(rs).len() ==> is_service_tag(
                #[trigger] response_candidates(rs)[k].1,
            ),
    decreases rs.len(),
{
    if rs.len() > 0 {
        let prev = response_candidates(rs.drop_last());
        let more = edge_candidates(rs.last().data.endpoints.edges@);
        lemma_response_candidates_tags(rs.drop_last());
        lemma_edge_candidates_tags(rs.last().data.endpoints.edges@);
        assert forall|k: int| 0 <= k < response_candidates(rs).len() implies is_service_tag(
            #[trigger] response_candidates(rs)[k].1,
        ) by {
            if k < prev.len() {
                assert(response_candidates(rs)[k] == prev[k]);
            } else {
                assert(response_candidates(rs)[k] == more[k - prev.len()]);
            }
        }
    }
}

/// Every endpoint of a list of edges whose serial number is a service tag is a candidate.
proof fn lemma_edge_candidates_complete(edges: Seq<TaniumEdges>, e: int)
    requires
        0 <= e < edges.len(),
        is_service_tag(edges[e].node.serial_number@),
    ensures
        has_serial(edge_candidates(edges), edges[e].node.serial_number@),
    decreases edges.len(),
{
    let serial = edges[e].node.serial_number@;
    let prev = edge_candidates(edges.drop_last());
    if e < edges.len() - 1 {
        lemma_edge_candidates_complete(edges.drop_last(), e);
        let k = choose|k: int| 0 <= k < prev.len() && #[trigger] prev[k].1 == serial;
        assert(edge_candidates(edges)[k] == prev[k]);
    } else {
        assert(edge_candidates(edges)[prev.len() as int].1 == serial);
    }
}

/// Every endpoint of the answers whose serial number is a service tag is a candidate.
proof fn lemma_response_candidates_complete(rs: Seq<TaniumResponse>, r: int, e: int)
    requires
        0 <= r < rs.len(),
        0 <= e < rs[r].data.endpoints.edges@.len(),
        is_service_tag(rs[r].data.endpoints.edges@[e].node.serial_number@),
    ensures
        has_serial(response_candidates(rs), rs[r].data.endpoints.edges@[e].node.serial_number@),
    decreases rs.len(),
{
    let serial = rs[r].data.endpoints.edges@[e].node.serial_number@;
    let prev = response_candidates(rs.drop_last());
    let all = response_candidates(rs);
    if r < rs.len() - 1 {
        assert(rs.drop_last()[r] == rs[r]);
        lemma_response_candidates_complete(rs.drop_last(), r, e);
        let k = choose|k: int| 0 <= k < prev.len() && #[trigger] prev[k].1 == serial;
        assert(all[k] == prev[k]);
    } else {
        let more = edge_candidates(rs.last().data.endpoints.edges@);
        lemma_edge_candidates_complete(rs.last().data.endpoints.edges@, e);
        let k = choose|k: int| 0 <= k < more.len() && #[trigger] more[k].1 == serial;
        assert(all[prev.len() + k] == more[k]);
    }
}

/// What `parse_responses` keeps of a set of answers: computers of those
/// answers, each with a service tag for serial number, no two with the same
/// serial number, and one for every serial number that is a service tag of
/// some endpoint of the answers.
pub proof fn lemma_parsed_computers(rs: Seq<TaniumResponse>)
    ensures
        forall|k: int|
            0 <= k < first_by_serial(response_candidates(rs)).len() ==> {
                &&& response_candidates(rs).contains(
                    #[trigger] first_by_serial(response_candidates(rs))[k],
                )
                &&& is_service_tag(first_by_serial(response_candidates(rs))[k].1)
            },
        forall|i: int, j: int|
            0 <= i < j < first_by_serial(response_candidates(rs)).len() ==> #[trigger] first_by_serial(
                response_candidates(rs),
            )[i].1 != #[trigger] first_by_serial(response_candidates(rs))[j].1,
        forall|r: int, e: int|
            0 <= r < rs.len() && 0 <= e < rs[r].data.endpoints.edges@.len() && is_service_tag(
                #[trigger] rs[r].data.endpoints.edges@[e].node.serial_number@,
            ) ==> has_serial(
                first_by_serial(response_candidates(rs)),
                rs[r].data.endpoints.edges@[e].node.serial_number@,
            ),
{
    let cs = response_candidates(rs);
    let kept = first_by_serial(cs);
    lemma_first_by_serial_subset(cs);
    lemma_first_by_serial_distinct(cs);
    lemma_response_candidates_tags(rs);
    assert forall|k: int| 0 <= k < kept.len() implies {
        &&& cs.contains(#[trigger] kept[k])
        &&& is_service_tag(kept[k].1)
    } by {
        let j = choose|j: int| 0 <= j < cs.len() && cs[j] == kept[k];
        assert(is_service_tag(cs[j].1));
    }
    assert forall|r: int, e: int|
        0 <= r < rs.len() && 0 <= e < rs[r].data.endpoints.edges@.len() && is_service_tag(
            #[trigger] rs[r].data.endpoints.edges@[e].node.serial_number@,
        ) implies has_serial(kept, rs[r].data.endpoints.edges@[e].node.serial_number@) by {
        lemma_response_candidates_complete(rs, r, e);
        lemma_first_by_serial_serials(cs, rs[r].data.endpoints.edges@[e].node.serial_number@);
    }
}

/// The computers of a list of edges whose serial number is seven bytes long, in order.
proof fn lemma_edge_candidates_filter(edges: Seq<TaniumEdges>)
    ensures
        edge_candidates(edges) == edges.filter(
            |e: TaniumEdges| encode_utf8(e.node.serial_number@).len() as usize == 7,
        ).map_values(|e: TaniumEdges| (e.node.name@, e.node.serial_number@)),
    decreases edges.len(),
{
    reveal(Seq::filter);
    let pred = |e: TaniumEdges| encode_utf8(e.node.serial_number@).len() as usize == 7;
    let f = |e: TaniumEdges| (e.node.name@, e.node.serial_number@);
    if edges.len() == 0 {
        assert(edges.filter(pred).map_values(f) =~= Seq::empty());
    } else {
        lemma_edge_candidates_filter(edges.drop_last());
        let prev = edges.drop_last().filter(pred);
        if pred(edges.last()) {
            assert(edges.filter(pred) == prev.push(edges.last()));
            assert(prev.push(edges.last()).map_values(f) =~= prev.map_values(f).push(f(edges.last())));
        } else {
            assert(edges.filter(pred) == prev);
        }
    }
}

/// The candidates of a set of answers are, in order of the answers and of
/// their edges, the (name, serial number) of every endpoint whose serial
/// number is seven bytes long.
pub proof fn lemma_response_candidates_law(rs: Seq<TaniumResponse>)
    ensures
        response_candidates(rs) == rs.map_values(
            |r: TaniumResponse| r.data.endpoints.edges@,
        ).flatten().filter(
            |e: TaniumEdges| encode_utf8(e.node.serial_number@).len() as usize == 7,
        ).map_values(|e: TaniumEdges| (e.node.name@, e.node.serial_number@)),
    decreases rs.len(),
{
    let pred = |e: TaniumEdges| encode_utf8(e.node.serial_number@).len() as usize == 7;
    let f = |e: TaniumEdges| (e.node.name@, e.node.serial_number@);
    let g = |r: TaniumResponse| r.data.endpoints.edges@;
    if rs.len() == 0 {
        assert(rs.map_values(g) =~= Seq::<Seq<TaniumEdges>>::empty());
        reveal(Seq::filter);
        assert(rs.map_values(g).flatten().filter(pred).map_values(f) =~= Seq::empty());
    } else {
        let prev = rs.drop_last();
        lemma_response_candidates_law(prev);
        lemma_edge_candidates_filter(rs.last().data.endpoints.edges@);
        assert(rs.map_values(g) =~= prev.map_values(g).push(g(rs.last())));
        prev.map_values(g).lemma_flatten_push(g(rs.last()));
        let a = prev.map_values(g).flatten();
        let b = rs.last().data.endpoints.edges@;
        Seq::filter_distributes_over_add(a, b, pred);
        assert((a.filter(pred) + b.filter(pred)).map_values(f) =~= a.filter(pred).map_values(f)
            + b.filter(pred).map_values(f));
    }
}

/// Keeping the first computer of each serial number, one computer at a time:
/// a computer is added at the end exactly when no computer before it has its
/// serial number.
pub proof fn lemma_first_by_serial_push(cs: Seq<(Seq<char>, Seq<char>)>, c: (Seq<char>, Seq<char>))
    ensures
        first_by_serial(Seq::empty()) == Seq::<(Seq<char>, Seq<char>)>::empty(),
        (exists|j: int| 0 <= j < cs.len() && #[trigger] cs[j].1 == c.1) ==> first_by_serial(
            cs.push(c),
        ) == first_by_serial(cs),
        !(exists|j: int| 0 <= j < cs.len() && #[trigger] cs[j].1 == c.1) ==> first_by_serial(
            cs.push(c),
        ) == first_by_serial(cs).push(c),
{
    let all = cs.push(c);
    assert(all.drop_last() =~= cs);
    if exists|j: int| 0 <= j < cs.len() && #[trigger] cs[j].1 == c.1 {
        let j = choose|j: int| 0 <= j < cs.len() && #[trigger] cs[j].1 == c.1;
        assert(all[j].1 == all[cs.len() as int].1);
    } else {
        if serial_seen_before(all, cs.len() as int) {
            let j = choose|j: int| 0 <= j < cs.len() && #[trigger] all[j].1 == all[cs.len() as int].1;
            assert(cs[j].1 == c.1);
        }
    }
}

/// The import member for no record is `"json": "[]"`, and adding a record to
/// a non-empty list adds a comma and that record, written as
/// `{\"serial\": \"S\", \"end_date\": \"D\"}` with S its first and D its second
/// string, just before the closing `]"`; the part before stays as it was.
pub proof fn lemma_import_query_law(records: Seq<(String, String)>, r: (String, String))
    ensures
        spec_import_query(Seq::empty()) == IMPORT_JSON_HEAD@ + "]\""@,
        spec_import_query(seq![r]) == IMPORT_JSON_HEAD@ + ("{\\\"serial\\\": \\\""@ + r.0@
            + "\\\", \\\"end_date\\\": \\\""@ + r.1@ + "\\\"}"@) + "]\""@,
        records.len() > 0 ==> exists|body: Seq<char>|
            spec_import_query(records) == IMPORT_JSON_HEAD@ + body + "]\""@
                && spec_import_query(records.push(r)) == IMPORT_JSON_HEAD@ + body + ","@ + (
            "{\\\"serial\\\": \\\""@ + r.0@ + "\\\", \\\"end_date\\\": \\\""@ + r.1@
                + "\\\"}"@) + "]\""@,
{
    assert(record_pieces(Seq::empty()) =~= Seq::<Seq<char>>::empty());
    assert(IMPORT_JSON_HEAD@ + Seq::<char>::empty() =~= IMPORT_JSON_HEAD@);
    assert(record_pieces(seq![r]) =~= seq![spec_record_json(r.0@, r.1@)]);
    if records.len() > 0 {
        let body = join(record_pieces(records), ","@);
        let pieces = record_pieces(records.push(r));
        assert(pieces.drop_last() =~= record_pieces(records));
        assert(pieces.last() == spec_record_json(r.0@, r.1@));
        assert(spec_import_query(records.push(r)) =~= IMPORT_JSON_HEAD@ + body + ","@
            + spec_record_json(r.0@, r.1@) + "]\""@);
        assert(spec_import_query(records) == IMPORT_JSON_HEAD@ + body + "]\""@);
    }
}

/// True when `serial` is the serial number of some computer of `cs`.
fn contains_serial(cs: &Vec<Computer>, serial: &String) -> (found: bool)
    ensures
        found == has_serial(computer_views(cs@), serial@),
{
    let n = cs.len();
    let mut k: usize = 0;
    while k < n
        invariant
            n == cs.len(),
            k <= n,
            forall|j: int| 0 <= j < k ==> cs@[j].serial_number@ != serial@,
        decreases n - k,
    {
        if cs[k].serial_number == *serial {
            assert(computer_views(cs@)[k as int].1 == serial@);
            return true;
        }
        k = k + 1;
    }
    proof {
        if has_serial(computer_views(cs@), serial@) {
            let j = choose|j: int|
                0 <= j < computer_views(cs@).len() && #[trigger] computer_views(cs@)[j].1 == serial@;
            assert(cs@[j].serial_number@ == serial@);
        }
    }
    false
}

/// The Dell machines of a set of answers: every endpoint whose serial number
/// is a service tag, in the order of the answers, each serial number once
/// (the first endpoint that has it is kept).
pub fn parse_responses(responses: Vec<TaniumResponse>) -> (computers: Vec<Computer>)
    ensures
        computer_views(computers@) == first_by_serial(response_candidates(responses@)),
{
    let ghost rs = responses@;
    let mut candidates: Vec<Computer> = Vec::new();
    let n = responses.len();
    let mut i: usize = 0;
    while i < n
        invariant
            n == responses.len(),
            rs == responses@,
            i <= n,
            computer_views(candidates@) == response_candidates(rs.take(i as int)),
        decreases n - i,
    {
        let edges = &responses[i].data.endpoints.edges;
        let ghost before = computer_views(candidates@);
        let m = edges.len();
        let mut j: usize = 0;
        while j < m
            invariant
                m == edges.len(),
                j <= m,
                computer_views(candidates@) == before + edge_candidates(edges@.take(j as int)),
            decreases m - j,
        {
            let node = &edges[j].node;
            assert(edges@.take(j + 1).drop_last() =~= edges@.take(j as int));
            if node.serial_number.as_str().len() == 7 {
                let c = Computer { name: node.name.clone(), serial_number: node.serial_number.clone() };
                let ghost old_cands = candidates@;
                candidates.push(c);
                assert(computer_views(candidates@) =~= computer_views(old_cands).push(
                    (node.name@, node.serial_number@),
                ));
                assert(computer_views(candidates@) =~= before + edge_candidates(edges@.take(j + 1)));
            } else {
                assert(computer_views(candidates@) =~= before + edge_candidates(edges@.take(j + 1)));
            }
            j = j + 1;
        }
        assert(edges@.take(m as int) =~= edges@);
        assert(rs.take(i + 1).drop_last() =~= rs.take(i as int));
        i = i + 1;
    }
    assert(rs.take(n as int) =~= rs);
    let ghost cands = computer_views(candidates@);
    let mut computers: Vec<Computer> = Vec::new();
    let total = candidates.len();
    let mut k: usize = 0;
    while k < total
        invariant
            total == candidates.len(),
            cands == computer_views(candidates@),
            k <= total,
            computer_views(computers@) == first_by_serial(cands.take(k as int)),
        decreases total - k,
    {
        let c = &candidates[k];
        let ghost prefix = cands.take(k as int);
        let ghost next = cands.take(k + 1);
        assert(next.drop_last() =~= prefix);
        let seen = contains_serial(&computers, &c.serial_number);
        proof {
            lemma_first_by_serial_serials(prefix, c.serial_number@);
            if has_serial(prefix, c.serial_number@) {
                let j = choose|j: int| 0 <= j < prefix.len() && #[trigger] prefix[j].1 == c.serial_number@;
                assert(next[j].1 == next[k as int].1);
            }
            if serial_seen_before(next, k as int) {
                let j = choose|j: int| 0 <= j < k && #[trigger] next[j].1 == next[k as int].1;
                assert(prefix[j].1 == c.serial_number@);
            }
        }
        if !seen {
            computers.push(Computer { name: c.name.clone(), serial_number: c.serial_number.clone() });
            assert(computer_views(computers@) =~= first_by_serial(next));
        }
        k = k + 1;
    }
    assert(cands.take(total as int) =~= cands);
    computers
}

/// The start of the query for a page of Dell endpoints after the first.
pub const PAGE_QUERY_HEAD: &'static str = r#"{
    "query": "{ endpoints (first: 1000, "#;

/// The end of every query for a page of Dell endpoints.
pub const PAGE_QUERY_TAIL: &'static str = r#"filter: {path: \"manufacturer\", op: CONTAINS, value: \"Dell\" }) { edges { node { id serialNumber name model manufacturer } } pageInfo { hasNextPage endCursor } }}"
    }"#;

/// The query for the first page of Dell endpoints.
pub const FIRST_PAGE_QUERY: &'static str = r#"{
    "query": "{ endpoints (first: 1000, filter: {path: \"manufacturer\", op: CONTAINS, value: \"Dell\" }) { edges { node { id serialNumber name model manufacturer } } pageInfo { hasNextPage endCursor } }}" 
    }"#;

/// The start of the request that imports warranty end dates into Tanium Asset.
pub const IMPORT_HEAD: &'static str = r#"{
        "query": "mutation importAssets($source: String!, $json: String!) {assetsImport(input: {sourceName: $source, json: $json}) {assets {id index status } }}",
        "variables": {"source": "Dell Warranty End Date","#;

/// The start of the JSON member that lists the imported records.
pub const IMPORT_JSON_HEAD: &'static str = r#""json": "["#;

/// The text that names the cursor a page starts after.
pub const AFTER_OPEN: &'static str = "after: \\\"";

/// The text that closes the cursor a page starts after.
pub const AFTER_CLOSE: &'static str = "\\\" ";

/// The URL of the Tanium GraphQL gateway of tenant `target`.
pub open spec fn spec_gateway_url(target: Seq<char>) -> Seq<char> {
    "https://"@ + target + "-api.cloud.tanium.com/plugin/products/gateway/graphql"@
}

/// The query for the page of Dell endpoints that follows the cursor `end_cursor`.
pub open spec fn spec_page_query(end_cursor: Seq<char>) -> Seq<char> {
    PAGE_QUERY_HEAD@ + AFTER_OPEN@ + end_cursor + AFTER_CLOSE@ + PAGE_QUERY_TAIL@
}

/// One record of the import: a serial number and its warranty end date.
pub open spec fn spec_record_json(serial: Seq<char>, end_date: Seq<char>) -> Seq<char> {
    "{\\\"serial\\\": \\\""@ + serial + "\\\", \\\"end_date\\\": \\\""@ + end_date + "\\\"}"@
}

/// The records of an import, one piece each.
pub open spec fn record_pieces(records: Seq<(String, String)>) -> Seq<Seq<char>> {
    records.map_values(|r: (String, String)| spec_record_json(r.0@, r.1@))
}

/// The JSON member that lists the imported records, separated by commas.
pub open spec fn spec_import_query(records: Seq<(String, String)>) -> Seq<char> {
    IMPORT_JSON_HEAD@ + join(record_pieces(records), ","@) + "]\""@
}

/// The whole import request for `records`.
pub open spec fn spec_import_request(records: Seq<(String, String)>) -> Seq<char> {
    IMPORT_HEAD@ + spec_import_query(records) + "}}"@
}

/// Every page query is the same text around its cursor, whatever the cursor.
pub proof fn lemma_page_query_law(a: Seq<char>, b: Seq<char>)
    ensures
        exists|pre: Seq<char>, post: Seq<char>|
            spec_page_query(a) == pre + a + post && spec_page_query(b) == pre + b + post,
{
    let pre = PAGE_QUERY_HEAD@ + AFTER_OPEN@;
    let post = AFTER_CLOSE@ + PAGE_QUERY_TAIL@;
    assert(spec_page_query(a) =~= pre + a + post);
    assert(spec_page_query(b) =~= pre + b + post);
}

/// Every gateway URL is the same text around its tenant, whatever the tenant.
pub proof fn lemma_gateway_url_law(a: Seq<char>, b: Seq<char>)
    ensures
        exists|pre: Seq<char>, post: Seq<char>|
            spec_gateway_url(a) == pre + a + post && spec_gateway_url(b) == pre + b + post,
{
    let pre = "https://"@;
    let post = "-api.cloud.tanium.com/plugin/products/gateway/graphql"@;
    assert(spec_gateway_url(a) =~= pre + a + post);
    assert(spec_gateway_url(b) =~= pre + b + post);
}

/// Every import request is the same text around its import member, whatever
/// the records.
pub proof fn lemma_import_request_law(a: Seq<(String, String)>, b: Seq<(String, String)>)
    ensures
        exists|pre: Seq<char>, post: Seq<char>|
            spec_import_request(a) == pre + spec_import_query(a) + post && spec_import_request(b)
                == pre + spec_import_query(b) + post,
{
    let pre = IMPORT_HEAD@;
    let post = "}}"@;
    assert(spec_import_request(a) =~= pre + spec_import_query(a) + post);
    assert(spec_import_request(b) =~= pre + spec_import_query(b) + post);
}

/// The URL of the Tanium GraphQL gateway of tenant `target`.
pub fn gateway_url(target: &str) -> (url: String)
    ensures
        url@ == spec_gateway_url(target@),
{
    let mut url = String::from_str("https://");
    url.append(target);
    url.append("-api.cloud.tanium.com/plugin/products/gateway/graphql");
    url
}

/// The query for the first page of Dell endpoints.
pub fn first_page_query() -> (query: String)
    ensures
        query@ == FIRST_PAGE_QUERY@,
{
    String::from_str(FIRST_PAGE_QUERY)
}

/// The query for the page of Dell endpoints that follows the cursor `end_cursor`.
pub fn format_request_query(end_cursor: String) -> (query: String)
    ensures
        query@ == spec_page_query(end_cursor@),
{
    let mut query = String::from_str(PAGE_QUERY_HEAD);
    query.append(AFTER_OPEN);
    query.append(end_cursor.as_str());
    query.append(AFTER_CLOSE);
    query.append(PAGE_QUERY_TAIL);
    query
}

/// After an answer, the query for the next page, or `None` when the answer
/// says that it was the last page.
pub fn next_page_query(response: &TaniumResponse) -> (query: Option<String>)
    ensures
        response.data.endpoints.page_info.has_next_page <==> query is Some,
        query matches Some(q) ==> q@ == spec_page_query(
            response.data.endpoints.page_info.end_cursor@,
        ),
{
    let info = &response.data.endpoints.page_info;
    if info.has_next_page {
        Some(format_request_query(info.end_cursor.clone()))
    } else {
        None
    }
}

/// The JSON member that lists the warranty end dates to import:
/// `"json": "[` then each record as `{\"serial\": \"S\", \"end_date\": \"D\"}`,
/// separated by commas, then `]"`.
pub fn format_import_query(records: Vec<(String, String)>) -> (query: String)
    ensures
        query@ == spec_import_query(records@),
{
    let mut pieces: Vec<String> = Vec::new();
    let n = records.len();
    let mut i: usize = 0;
    while i < n
        invariant
            n == records.len(),
            i <= n,
            string_views(pieces@) == record_pieces(records@).take(i as int),
        decreases n - i,
    {
        let record = &records[i];
        let mut piece = String::from_str("{\\\"serial\\\": \\\"");
        piece.append(record.0.as_str());
        piece.append("\\\", \\\"end_date\\\": \\\"");
        piece.append(record.1.as_str());
        piece.append("\\\"}");
        assert(piece@ == record_pieces(records@)[i as int]);
        let ghost before = pieces@;
        pieces.push(piece);
        assert(string_views(pieces@) =~= string_views(before).push(record_pieces(records@)[i as int]));
        assert(string_views(pieces@) =~= record_pieces(records@).take(i + 1));
        i = i + 1;
    }
    assert(record_pieces(records@).take(n as int) =~= record_pieces(records@));
    let mut query = String::from_str(IMPORT_JSON_HEAD);
    push_joined(&mut query, &pieces, ",");
    query.append("]\"");
    query
}

/// The request that imports `records` (serial number, warranty end date)
/// into the "Dell Warranty End Date" source of Tanium Asset.
pub fn import_request(records: Vec<(String, String)>) -> (request: String)
    ensures
        request@ == spec_import_request(records@),
{
    let mut request = String::from_str(IMPORT_HEAD);
    let query = format_import_query(records);
    request.append(query.as_str());
    request.append("}}");
    request
}

} // verus!
