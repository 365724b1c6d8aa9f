use dwanium::tanium::{
    first_page_query, format_import_query, format_request_query, gateway_url, import_request,
    next_page_query, parse_responses, Computer, TaniumData, TaniumEdges, TaniumEndpoints,
    TaniumNodes, TaniumPageInfo, TaniumResponse,
};

fn response(nodes: &[(&str, &str)], has_next_page: bool, end_cursor: &str) -> TaniumResponse {
    TaniumResponse {
        data: TaniumData {
            endpoints: TaniumEndpoints {
                edges: nodes
                    .iter()
                    .map(|(serial, name)| TaniumEdges {
                        node: TaniumNodes { serial_number: serial.to_string(), name: name.to_string() },
                    })
                    .collect(),
                page_info: TaniumPageInfo { has_next_page, end_cursor: end_cursor.to_string() },
            },
        },
    }
}

fn pairs(computers: &[Computer]) -> Vec<(String, String)> {
    computers.iter().map(|c| (c.serial_number.clone(), c.name.clone())).collect()
}

#[test]
fn parse_responses_keeps_service_tags_once_in_order() {
    let first = response(
        &[("ABC1234", "pc-1"), ("TOOLONG99", "server"), ("XYZ9876", "pc-2"), ("ABC1234", "pc-1-again")],
        true,
        "cursor-1",
    );
    let second = response(&[("", "no-serial"), ("QQQ0001", "pc-3"), ("XYZ9876", "pc-2b")], false, "cursor-2");
    let computers = parse_responses(vec![first, second]);
    assert_eq!(
        pairs(&computers),
        vec![
            ("ABC1234".to_string(), "pc-1".to_string()),
            ("XYZ9876".to_string(), "pc-2".to_string()),
            ("QQQ0001".to_string(), "pc-3".to_string()),
        ]
    );
}

#[test]
fn parse_responses_counts_bytes_not_characters() {
    // "ÉÉÉA" is four characters but seven bytes; "ÉBCDEFG" is seven characters but eight bytes.
    let page = response(&[("ÉÉÉA", "accented"), ("ÉBCDEFG", "long"), ("1234567", "plain")], false, "");
    let computers = parse_responses(vec![page]);
    assert_eq!(
        pairs(&computers),
        vec![("ÉÉÉA".to_string(), "accented".to_string()), ("1234567".to_string(), "plain".to_string())]
    );
}

#[test]
fn parse_responses_of_nothing_is_empty() {
    assert!(parse_responses(Vec::new()).is_empty());
    assert!(parse_responses(vec![response(&[], false, "")]).is_empty());
}

#[test]
fn format_request_query_embeds_the_cursor() {
    let query = format_request_query("Y3Vyc29y".to_string());
    let expected = "{\n    \"query\": \"{ endpoints (first: 1000, after: \\\"Y3Vyc29y\\\" filter: {path: \\\"manufacturer\\\", op: CONTAINS, value: \\\"Dell\\\" }) { edges { node { id serialNumber name model manufacturer } } pageInfo { hasNextPage endCursor } }}\"\n    }";
    assert_eq!(query, expected);
}

#[test]
fn first_page_query_has_no_cursor() {
    let expected = "{\n    \"query\": \"{ endpoints (first: 1000, filter: {path: \\\"manufacturer\\\", op: CONTAINS, value: \\\"Dell\\\" }) { edges { node { id serialNumber name model manufacturer } } pageInfo { hasNextPage endCursor } }}\" \n    }";
    assert_eq!(first_page_query(), expected);
}

#[test]
fn next_page_query_follows_the_page_info() {
    let more = response(&[], true, "abc");
    assert_eq!(next_page_query(&more), Some(format_request_query("abc".to_string())));
    let last = response(&[], false, "abc");
    assert_eq!(next_page_query(&last), None);
}

#[test]
fn format_import_query_of_no_records() {
    assert_eq!(format_import_query(Vec::new()), "\"json\": \"[]\"");
}

#[test]
fn format_import_query_of_two_records() {
    let records = vec![
        ("ABC1234".to_string(), "2026-03-01".to_string()),
        ("XYZ9876".to_string(), "2024-12-31".to_string()),
    ];
    let expected = "\"json\": \"[{\\\"serial\\\": \\\"ABC1234\\\", \\\"end_date\\\": \\\"2026-03-01\\\"},{\\\"serial\\\": \\\"XYZ9876\\\", \\\"end_date\\\": \\\"2024-12-31\\\"}]\"";
    assert_eq!(format_import_query(records), expected);
}

#[test]
fn import_request_wraps_the_records() {
    let records = vec![("ABC1234".to_string(), "2026-03-01".to_string())];
    let expected = "{\n        \"query\": \"mutation importAssets($source: String!, $json: String!) {assetsImport(input: {sourceName: $source, json: $json}) {assets {id index status } }}\",\n        \"variables\": {\"source\": \"Dell Warranty End Date\",\"json\": \"[{\\\"serial\\\": \\\"ABC1234\\\", \\\"end_date\\\": \\\"2026-03-01\\\"}]\"}}";
    assert_eq!(import_request(records), expected);
}

#[test]
fn gateway_url_of_a_tenant() {
    assert_eq!(gateway_url("contoso"), "https://contoso-api.cloud.tanium.com/plugin/products/gateway/graphql");
}
