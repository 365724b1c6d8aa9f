use dwanium::dell::{
    bearer_authorization, entitlements_url, map_to_serial_and_enddate, service_tag_query,
    token_request_form, DellEntitlements, DellObject,
};

fn object(tag: &str, end_dates: Option<&[&str]>) -> DellObject {
    DellObject {
        service_tag: tag.to_string(),
        ship_date: Some("2020-01-01T00:00:00Z".to_string()),
        entitlements: end_dates.map(|dates| {
            dates
                .iter()
                .map(|d| DellEntitlements { start_date: "2020-01-01T00:00:00Z".to_string(), end_date: d.to_string() })
                .collect()
        }),
    }
}

#[test]
fn map_to_serial_and_enddate_takes_the_first_entitlement_day() {
    let result = vec![
        object("ABC1234", Some(&["2026-03-01T23:59:59.000Z", "2030-01-01T00:00:00Z"])),
        object("NOENT01", None),
        object("EMPTY01", Some(&[])),
        object("XYZ9876", Some(&["2024-12-31T00:00:00Z"])),
    ];
    assert_eq!(
        map_to_serial_and_enddate(result),
        vec![
            ("ABC1234".to_string(), "2026-03-01".to_string()),
            ("XYZ9876".to_string(), "2024-12-31".to_string()),
        ]
    );
}

#[test]
fn map_to_serial_and_enddate_cuts_ten_bytes() {
    // Exactly ten bytes, and ten bytes that end after a two-byte character.
    let result = vec![object("A", Some(&["2026-03-01"])), object("B", Some(&["2026-03-é-rest"]))];
    assert_eq!(
        map_to_serial_and_enddate(result),
        vec![("A".to_string(), "2026-03-01".to_string()), ("B".to_string(), "2026-03-é".to_string())]
    );
}

#[test]
fn map_to_serial_and_enddate_of_nothing_is_empty() {
    assert!(map_to_serial_and_enddate(Vec::new()).is_empty());
}

#[test]
fn service_tag_query_joins_with_commas() {
    assert_eq!(service_tag_query(&Vec::new()), "servicetags=");
    assert_eq!(service_tag_query(&vec!["ABC1234".to_string()]), "servicetags=ABC1234");
    let three = vec!["A1".to_string(), "B2".to_string(), "C3".to_string()];
    assert_eq!(service_tag_query(&three), "servicetags=A1,B2,C3");
}

#[test]
fn entitlements_url_of_two_tags() {
    let tags = vec!["ABC1234".to_string(), "XYZ9876".to_string()];
    assert_eq!(
        entitlements_url(&tags),
        "https://apigtwb2c.us.dell.com/PROD/sbil/eapi/v5/asset-entitlements?servicetags=ABC1234,XYZ9876"
    );
}

#[test]
fn bearer_authorization_prefixes_the_token() {
    assert_eq!(bearer_authorization("t0k3n"), "Bearer t0k3n");
}

#[test]
fn token_request_form_lists_the_credentials() {
    let form = token_request_form("my-id".to_string(), "my-secret".to_string());
    assert_eq!(
        form,
        vec![
            ("client_id".to_string(), "my-id".to_string()),
            ("client_secret".to_string(), "my-secret".to_string()),
            ("grant_type".to_string(), "client_credentials".to_string()),
        ]
    );
}
