use igrf::double::Double;
use igrf::satellite::PRESETS;
use igrf::search::{
    catalog_of, dash_if_blank, run_type_fetch, FetchReply, PageStep, SatSearchState,
    SEARCH_PER_PAGE,
};
use igrf::spacetrack::{
    by_object_type_query, catalog_field, encode, float_field, integer_field, latest_by_ids_query,
    latest_by_name_query, latest_query, login_outcome, query_refusal, query_url, rows_text,
    text_field, Credentials, Scalar, SpaceTrackError, SpaceTrackTle, ALL_GP_QUERY,
};
use igrf::tle_store::{
    catalog_number_of, create_statements, found, has_stale_column, missing_columns, row_key,
    window, Condition, RefreshError, StoredTle, TleFilter, TlePage, TleStoreError, COLUMNS,
};

fn d(value: f64) -> Double {
    Double::from_bits(value.to_bits())
}

fn f(value: Double) -> f64 {
    f64::from_bits(value.to_bits())
}

/// What a JSON value is, in the terms of the library.
fn scalar(value: &serde_json::Value) -> Scalar {
    match value {
        serde_json::Value::Null => Scalar::Null,
        serde_json::Value::String(text) => Scalar::Text(text.clone()),
        serde_json::Value::Number(number) => Scalar::Number {
            unsigned: number.as_u64(),
            signed: number.as_i64(),
            float: number.as_f64().map(d),
        },
        other => Scalar::Other(other.to_string()),
    }
}

fn read(row: &str) -> SpaceTrackTle {
    let value: serde_json::Value = serde_json::from_str(row).unwrap();
    let text = |name: &str| {
        text_field(value.get(name).and_then(|one| one.as_str()).map(|one| one.to_owned()))
    };
    let null = serde_json::Value::Null;
    let at = |name: &str| scalar(value.get(name).unwrap_or(&null));
    let float = |name: &str| float_field(&at(name)).unwrap();
    let integer = |name: &str| integer_field(&at(name)).unwrap();
    SpaceTrackTle {
        norad_cat_id: catalog_field(&at("NORAD_CAT_ID")).unwrap(),
        object_name: text("OBJECT_NAME"),
        object_id: text("OBJECT_ID"),
        tle_line0: text("TLE_LINE0"),
        line1: text("TLE_LINE1"),
        line2: text("TLE_LINE2"),
        ccsds_omm_vers: text("CCSDS_OMM_VERS"),
        comment: text("COMMENT"),
        creation_date: text("CREATION_DATE"),
        originator: text("ORIGINATOR"),
        center_name: text("CENTER_NAME"),
        ref_frame: text("REF_FRAME"),
        time_system: text("TIME_SYSTEM"),
        mean_element_theory: text("MEAN_ELEMENT_THEORY"),
        epoch: text("EPOCH"),
        mean_motion: float("MEAN_MOTION"),
        eccentricity: float("ECCENTRICITY"),
        inclination: float("INCLINATION"),
        ra_of_asc_node: float("RA_OF_ASC_NODE"),
        arg_of_pericenter: float("ARG_OF_PERICENTER"),
        mean_anomaly: float("MEAN_ANOMALY"),
        ephemeris_type: integer("EPHEMERIS_TYPE"),
        classification_type: text("CLASSIFICATION_TYPE"),
        element_set_no: integer("ELEMENT_SET_NO"),
        rev_at_epoch: integer("REV_AT_EPOCH"),
        bstar: float("BSTAR"),
        mean_motion_dot: float("MEAN_MOTION_DOT"),
        mean_motion_ddot: float("MEAN_MOTION_DDOT"),
        semimajor_axis: float("SEMIMAJOR_AXIS"),
        period: float("PERIOD"),
        apoapsis: float("APOAPSIS"),
        periapsis: float("PERIAPSIS"),
        object_type: text("OBJECT_TYPE"),
        rcs_size: text("RCS_SIZE"),
        country_code: text("COUNTRY_CODE"),
        launch_date: text("LAUNCH_DATE"),
        site: text("SITE"),
        decay_date: text("DECAY_DATE"),
        data_source: text("DATA_SOURCE"),
        gp_id: integer("GP_ID"),
    }
}

fn row(id: u64, epoch: &str) -> SpaceTrackTle {
    let (_, line1, line2) = PRESETS[0];
    read(&format!(
        r#"{{"NORAD_CAT_ID":"{id}","OBJECT_NAME":"ISS (ZARYA)","OBJECT_ID":"1998-067A",
        "EPOCH":"{epoch}","TLE_LINE1":"{line1}","TLE_LINE2":"{line2}"}}"#
    ))
}

#[test]
fn replace_then_format_round_trips_through_the_runtime_type() {
    let stored = StoredTle::writable(&row(25544, "2026-02-05 12:03:05"), "now").unwrap();

    let set = found(25544, Some(&stored)).unwrap();
    assert_eq!(set.name.as_deref(), Some("ISS (ZARYA)"));
    assert_eq!(set.catalog_number().unwrap(), 25544);
    assert!(set.tracker().is_ok());

    assert!(matches!(found(99999, None), Err(TleStoreError::NotFound(99999))));
}

#[test]
fn every_gp_field_round_trips_through_its_typed_column() {
    let tle = read(
        r#"{
            "NORAD_CAT_ID": "25544",
            "OBJECT_NAME": "ISS (ZARYA)",
            "OBJECT_ID": "1998-067A",
            "TLE_LINE0": "0 ISS (ZARYA)",
            "TLE_LINE1": "1 25544U 98067A   26036.50214262  .00012860  00000+0  24571-3 0  9997",
            "TLE_LINE2": "2 25544  51.6316 231.4727 0011155  67.3664 292.8503 15.48414003551342",
            "ORIGINATOR": "18 SPCS",
            "REF_FRAME": "TEME",
            "EPOCH": "2026-02-05 12:03:05",
            "MEAN_MOTION": "15.50103472",
            "ECCENTRICITY": "0.0011155",
            "INCLINATION": "51.6316",
            "BSTAR": "0.00024571",
            "REV_AT_EPOCH": "55134",
            "SEMIMAJOR_AXIS": "6795.5",
            "PERIOD": "92.9",
            "APOAPSIS": "425.1",
            "PERIAPSIS": "410.0",
            "GP_ID": 271199369,
            "OBJECT_TYPE": "PAYLOAD"
        }"#,
    );
    let stored = StoredTle::writable(&tle, "2026-02-06T00:00:00+00:00").unwrap();

    assert_eq!(stored.tle_line0, "0 ISS (ZARYA)");
    assert_eq!(stored.originator, "18 SPCS");
    assert_eq!(stored.ref_frame, "TEME");
    assert_eq!(f(stored.mean_motion), 15.50103472);
    assert_eq!(f(stored.inclination), 51.6316);
    assert_eq!(f(stored.bstar), 0.00024571);
    assert_eq!(stored.rev_at_epoch, 55134);
    assert_eq!(f(stored.semimajor_axis), 6795.5);
    assert_eq!(f(stored.apoapsis), 425.1);
    assert_eq!(stored.gp_id, 271199369);
    assert_eq!(stored.fetched_at, "2026-02-06T00:00:00+00:00");
}

#[test]
fn replace_many_skips_rows_that_have_no_orbital_lines() {
    let mut bare = row(70000, "2026-02-05 12:00:00");
    bare.line1 = String::new();
    bare.line2 = String::new();
    let rows = [row(25544, "2026-02-05 12:00:00"), bare];
    let written: Vec<StoredTle> =
        rows.iter().filter_map(|tle| StoredTle::writable(tle, "now")).collect();
    assert_eq!(written.len(), 1);
    assert_eq!(written[0].norad_cat_id, 25544);
}

#[test]
fn codes_are_stored_in_capitals() {
    let mut tle = row(1, "");
    tle.object_type = " Rocket body ".to_owned();
    tle.site = "stra\u{df}e".to_owned();
    let stored = StoredTle::from_fetched(&tle, "");
    assert_eq!(stored.object_type, "ROCKET BODY");
    assert_eq!(stored.site, "STRASSE");
}

#[test]
fn storing_keeps_the_element_set() {
    let mut tle = row(5, "");
    tle.object_name = "  ISS\t".to_owned();
    let set = tle.to_tle_set();
    assert_eq!(StoredTle::from_fetched(&tle, "").to_tle_set(), set);
    assert_eq!(set.name.as_deref(), Some("ISS"));
    tle.object_name = "  ".to_owned();
    assert_eq!(tle.to_tle_set().name, None);
}

#[test]
fn numbers_come_as_text_or_as_numbers() {
    let value = |text: &str| scalar(&serde_json::from_str(text).unwrap());
    assert_eq!(float_field(&value("\" 1.25 \"")).map(f), Ok(1.25));
    assert_eq!(float_field(&value("3")).map(f), Ok(3.0));
    assert_eq!(float_field(&value("\"\"")).map(f), Ok(0.0));
    assert_eq!(float_field(&Scalar::Null).map(f), Ok(0.0));
    assert_eq!(
        float_field(&value("\"x\"")).map(f),
        Err("invalid float literal".to_owned())
    );
    assert_eq!(
        float_field(&value("[1]")).map(f),
        Err("expected a number, got [1]".to_owned())
    );
    assert_eq!(integer_field(&value("\"-12\"")), Ok(-12));
    assert_eq!(
        integer_field(&value("\"-9223372036854775808\"")),
        Ok(i64::MIN)
    );
    assert_eq!(integer_field(&value("\"12.9\"")), Ok(12));
    assert_eq!(integer_field(&value("-3.7")), Ok(-3));
    assert_eq!(
        integer_field(&value("\"9223372036854775808\"")),
        Ok(9223372036854775808.0_f64 as i64)
    );
    assert_eq!(integer_field(&Scalar::Null), Ok(0));
    assert_eq!(catalog_field(&value("\"25544\"")), Ok(25544));
    assert_eq!(catalog_field(&value("25544")), Ok(25544));
    for text in ["", "+", "-1", "12x", "18446744073709551616"] {
        assert_eq!(
            catalog_field(&Scalar::Text(text.to_owned())),
            text.parse::<u64>().map_err(|error| error.to_string()),
            "{text}"
        );
    }
    assert_eq!(
        catalog_field(&value("-1")),
        Err("not a non-negative integer".to_owned())
    );
    assert_eq!(
        catalog_field(&Scalar::Null),
        Err("expected a catalog number, got null".to_owned())
    );
}

fn said(error: SpaceTrackError) -> String {
    error.message()
}

#[test]
fn logins_and_queries_are_judged_by_their_answers() {
    assert!(login_outcome(200, "\"\"").is_ok());
    assert!(matches!(login_outcome(401, ""), Err(SpaceTrackError::Auth(_))));
    assert!(matches!(
        login_outcome(200, "{\"Login\":\"Failed\"}"),
        Err(SpaceTrackError::Auth(_))
    ));
    assert_eq!(
        said(login_outcome(503, "").unwrap_err()),
        "Space-Track query error: login returned HTTP 503"
    );
    assert_eq!(
        query_url(true, "//class/gp").unwrap(),
        "https://www.space-track.org/basicspacedata/query/class/gp"
    );
    assert!(matches!(query_url(false, "x"), Err(SpaceTrackError::Auth(_))));
    assert!(query_refusal(204, "").is_none());
    assert_eq!(
        said(query_refusal(500, " <html>").unwrap()),
        "Space-Track query error: HTTP 500: non-JSON response (check the query class/path)"
    );
    assert_eq!(
        said(query_refusal(429, &"a".repeat(400)).unwrap()),
        format!("Space-Track query error: HTTP 429: {}", "a".repeat(300))
    );
    assert_eq!(said(query_refusal(500, "  ").unwrap()), "Space-Track query error: HTTP 500");
}

#[test]
fn an_object_instead_of_rows_is_a_complaint() {
    assert_eq!(rows_text("\n [] ").unwrap(), "[] ");
    assert_eq!(
        said(rows_text(" {\"error\":\"You've violated the rate limit\"}").unwrap_err()),
        "Space-Track query error: You've violated the rate limit"
    );
    assert_eq!(
        said(rows_text("{\"other\":1}").unwrap_err()),
        "Space-Track query error: {\"other\":1}"
    );
    assert_eq!(
        said(rows_text("{broken").unwrap_err()),
        "Space-Track query error: {broken"
    );
    assert_eq!(
        said(SpaceTrackError::Decode("x".to_owned())),
        "Space-Track response was not understood: x"
    );
    assert_eq!(
        said(SpaceTrackError::Http("x".to_owned())),
        "Space-Track transport error: x"
    );
}

#[test]
fn queries_are_paths() {
    assert_eq!(
        latest_by_ids_query(&vec![25544, 33396]),
        "class/gp/NORAD_CAT_ID/25544,33396/format/json"
    );
    assert_eq!(latest_query(&Vec::new()), ALL_GP_QUERY);
    assert_eq!(latest_query(&vec![1]), "class/gp/NORAD_CAT_ID/1/format/json");
    assert_eq!(
        latest_by_name_query("ISS (ZARYA)"),
        "class/gp/OBJECT_NAME/ISS%20(ZARYA)/format/json"
    );
    assert_eq!(
        by_object_type_query(" ROCKET BODY "),
        "class/gp/OBJECT_TYPE/ROCKET%20BODY/orderby/norad_cat_id/format/json"
    );
    assert!(!encode(" a b ").contains(' '));
}

#[test]
fn credentials_are_needed_whole() {
    let some = |text: &str| Some(text.to_owned());
    assert!(matches!(
        Credentials::from_values(None, some("p")),
        Err(SpaceTrackError::Auth(text)) if text.contains("SPACETRACK_IDENTITY is not set")
    ));
    assert!(matches!(
        Credentials::from_values(some("i"), None),
        Err(SpaceTrackError::Auth(text)) if text.contains("SPACETRACK_PASSWORD is not set")
    ));
    assert!(matches!(
        Credentials::from_values(some(" "), some("p")),
        Err(SpaceTrackError::Auth(text)) if text.ends_with("are set but empty")
    ));
    let kept = Credentials::from_values(some("i"), some("p")).ok().unwrap();
    assert_eq!((kept.identity.as_str(), kept.password.as_str()), ("i", "p"));
    assert_eq!(Credentials::new("a", "b").password, "b");
}

fn shown(condition: &Condition) -> String {
    format!("{condition:?}")
}

#[test]
fn filters_become_conditions() {
    let filter = TleFilter {
        object_name: Some(" star ".to_owned()),
        norad_cat_id: Some("3".to_owned()),
        rcs_size: Some("small".to_owned()),
        object_type: Some("payload".to_owned()),
        site: Some("afetr".to_owned()),
        country_code: Some("us".to_owned()),
        launch_date_from: Some("2019-06-01".to_owned()),
        decay_date_from: Some("2000-01-01".to_owned()),
        launch_date_before: Some("  ".to_owned()),
        decay_date_before: Some("2001-01-01".to_owned()),
    };
    let seen: Vec<String> = filter.conditions().iter().map(shown).collect();
    assert_eq!(
        seen,
        vec![
            "NameLike(\"%star%\")",
            "NumberLike(\"%3%\")",
            "SizeIs(\"SMALL\")",
            "TypeIs(\"PAYLOAD\")",
            "SiteLike(\"%AFETR%\")",
            "CountryLike(\"%US%\")",
            "LaunchedFrom(\"2019-06-01\")",
            "DecayedFrom(\"2000-01-01\")",
            "DecayedBefore(\"2001-01-01\")",
        ]
    );
    assert!(!filter.is_empty());
    assert!(TleFilter::default().is_empty());
    assert!(TleFilter::default().conditions().is_empty());
}

#[test]
fn pages_cover_every_match() {
    let page = |total: i64, per_page: usize| TlePage::of(Vec::new(), total, 0, per_page);
    assert_eq!(page(4, 2).page_count(), 2);
    assert_eq!(page(5, 2).page_count(), 3);
    assert_eq!(page(0, 2).page_count(), 1);
    assert_eq!(page(-1, 0).page_count(), 1);
    assert_eq!(page(3, 0).page_count(), 3);
    assert_eq!(window(3, 10), (10, 30));
    assert_eq!(window(3, 0), (1, 3));
}

#[test]
fn keys_and_numbers_undo_each_other() {
    for number in [0_u64, 25544, u64::MAX, 1 << 63] {
        assert_eq!(row_key(number), number as i64);
        assert_eq!(catalog_number_of(row_key(number)), number);
    }
}

#[test]
fn older_tables_are_brought_up_to_date() {
    let statements = create_statements();
    assert!(statements.starts_with("CREATE TABLE IF NOT EXISTS tle ("));
    for (_, definition) in COLUMNS {
        assert!(statements.contains(definition));
    }
    let present: Vec<String> =
        ["norad_cat_id", "object_name", "object_id", "epoch", "line1", "line2", "fetched_at"]
            .map(|name| name.to_owned())
            .to_vec();
    let missing = missing_columns(&present);
    assert_eq!(missing.len(), COLUMNS.len() - 6);
    assert_eq!(missing[0], "ALTER TABLE tle ADD COLUMN tle_line0 TEXT NOT NULL DEFAULT ''");
    assert!(!has_stale_column(&present));
    assert!(has_stale_column(&vec!["raw_json".to_owned()]));
    let all: Vec<String> = COLUMNS.iter().map(|one| one.0.to_owned()).collect();
    assert!(missing_columns(&all).is_empty());
}

#[test]
fn store_errors_say_what_failed() {
    assert_eq!(
        TleStoreError::NotFound(7).message(),
        "no stored TLE for catalog number 7"
    );
    assert_eq!(TleStoreError::Sql("x".to_owned()).message(), "TLE store error: x");
    let refresh: RefreshError = TleStoreError::NotFound(7).into();
    assert_eq!(refresh.message(), "no stored TLE for catalog number 7");
    let refresh: RefreshError = SpaceTrackError::Http("y".to_owned()).into();
    assert_eq!(refresh.message(), "Space-Track transport error: y");
}

#[test]
fn a_search_asks_anew_when_its_filter_changes() {
    let mut search = SatSearchState::default();
    assert!(search.asks_anew());
    assert!(!search.asks_anew());
    search.page = 3;
    search.object_name = " iss ".to_owned();
    search.rcs_size = 2;
    search.launch_date = "2020-01-01".to_owned();
    assert!(search.asks_anew());
    assert_eq!(search.page, 0);
    assert_eq!(search.filter_key(), "0|iss||2|||2020-01-01|");
    let filter = search.build_filter();
    assert_eq!(filter.object_type.as_deref(), Some("PAYLOAD"));
    assert_eq!(filter.object_name.as_deref(), Some("iss"));
    assert_eq!(filter.rcs_size.as_deref(), Some("MEDIUM"));
    assert_eq!(filter.launch_date_before.as_deref(), Some("2020-01-01"));
    assert_eq!(filter.launch_date_from, None);
    search.clear_filters();
    assert_eq!(search.filter_key(), "0|||0||||");
}

#[test]
fn the_last_page_is_not_blank() {
    let mut search = SatSearchState::default();
    search.total = 21;
    assert_eq!(search.page_count(), 3);
    assert!(search.turn_page(true));
    assert!(search.turn_page(true));
    assert!(!search.turn_page(true));
    assert_eq!(search.page, 2);
    let short = TlePage::of(Vec::new(), 11, 2, SEARCH_PER_PAGE);
    assert!(matches!(search.page_arrived(&short), PageStep::Again(1)));
    assert_eq!(search.page, 1);
    let stored = StoredTle::from_fetched(&row(1, ""), "");
    let full = TlePage::of(vec![stored], 11, 1, SEARCH_PER_PAGE);
    assert!(matches!(search.page_arrived(&full), PageStep::Shown));
    search.show_page(full);
    assert_eq!((search.total, search.results.len()), (11, 1));
    assert!(search.turn_page(false));
    assert!(!search.turn_page(false));
    search.show_nothing();
    assert_eq!((search.total, search.results.len()), (0, 0));
}

#[test]
fn a_fetch_reports_its_end() {
    let mut search = SatSearchState::default();
    search.object_type = 2;
    assert!(!search.is_selected_type_fetched());
    assert_eq!(
        search.begin_fetch().as_deref(),
        Some("Fetching DEBRIS from Space-Track...")
    );
    assert_eq!(search.begin_fetch(), None);
    assert_eq!(search.fetch_replied(FetchReply::Pending, Vec::new()), None);
    assert!(search.fetching);
    assert_eq!(
        search
            .fetch_replied(FetchReply::Done(12), vec!["DEBRIS".to_owned()])
            .as_deref(),
        Some("Fetched 12 DEBRIS object(s) into tle_data.db")
    );
    assert!(search.is_selected_type_fetched());
    search.begin_fetch();
    search.fetch_replied(FetchReply::Failed("no".to_owned()), Vec::new());
    assert_eq!(search.error.as_deref(), Some("Space-Track: no"));
    search.begin_fetch();
    search.fetch_replied(FetchReply::Lost, Vec::new());
    assert_eq!(search.error.as_deref(), Some("fetch ended without a result"));
    let no = || Err("no".to_owned());
    assert_eq!(run_type_fetch(no(), Ok(()), Ok(1)), no().map(|_: ()| 0));
    assert_eq!(run_type_fetch(Ok(()), no(), Ok(1)), no().map(|_: ()| 0));
    assert_eq!(run_type_fetch(Ok(()), Ok(()), Ok(1)), Ok(1));
}

#[test]
fn rows_show_what_they_have() {
    assert_eq!(catalog_of(PRESETS[0].1), Some(25544));
    assert_eq!(catalog_of(""), None);
    assert_eq!(dash_if_blank(" "), "-");
    assert_eq!(dash_if_blank(" a"), " a");
}

#[test]
fn passwords_are_not_shown() {
    let shown = Credentials::new("me@example.org", "SECRET").shown();
    assert_eq!(
        shown,
        "Credentials { identity: \"me@example.org\", password: \"<redacted>\" }"
    );
    assert_eq!(shown, Credentials::new("me@example.org", "").shown());
    assert_eq!(
        Credentials::new("a\"b\n", "x").shown(),
        "Credentials { identity: \"a\\\"b\\n\", password: \"<redacted>\" }"
    );
}
