use graphite::whisper::schema::{
    follows, parse_quantity, ParseError, RetentionPolicy, Schema, SchemaError,
};

fn specs(list: &[&str]) -> Vec<String> {
    list.iter().map(|s| s.to_string()).collect()
}

#[test]
fn plain_numbers_are_seconds_and_points() {
    assert_eq!(
        RetentionPolicy::parse("60:1440"),
        Ok(RetentionPolicy { precision: 60, points: 1440 })
    );
}

#[test]
fn spec_without_colon_is_reported() {
    assert_eq!(RetentionPolicy::parse("abc"), Err(ParseError::MissingColon));
    assert_eq!(RetentionPolicy::parse(""), Err(ParseError::MissingColon));
    assert_eq!(
        Schema::new_from_retention_specs(specs(&["abc"])),
        Err(SchemaError::Unparsable(vec![0]))
    );
}

#[test]
fn units_scale_both_sides() {
    assert_eq!(
        RetentionPolicy::parse("60s:1440"),
        Ok(RetentionPolicy { precision: 60, points: 1440 })
    );
    assert_eq!(
        RetentionPolicy::parse("15m:8w"),
        Ok(RetentionPolicy { precision: 900, points: 8 * 604800 })
    );
    assert_eq!(
        RetentionPolicy::parse("1h:2d"),
        Ok(RetentionPolicy { precision: 3600, points: 2 * 86400 })
    );
    assert_eq!(
        RetentionPolicy::parse("7s:1y"),
        Ok(RetentionPolicy { precision: 7, points: 31536000 })
    );
    assert_eq!(
        RetentionPolicy::parse_bytes(b"007:08"),
        Ok(RetentionPolicy { precision: 7, points: 8 })
    );
}

#[test]
fn bad_sides_are_told_apart() {
    assert_eq!(RetentionPolicy::parse(":10"), Err(ParseError::BadPrecision));
    assert_eq!(RetentionPolicy::parse("s:10"), Err(ParseError::BadPrecision));
    assert_eq!(RetentionPolicy::parse("1x:10"), Err(ParseError::BadPrecision));
    assert_eq!(RetentionPolicy::parse("0:10"), Err(ParseError::BadPrecision));
    assert_eq!(RetentionPolicy::parse("1ss:10"), Err(ParseError::BadPrecision));
    assert_eq!(RetentionPolicy::parse(" 1:10"), Err(ParseError::BadPrecision));
    assert_eq!(RetentionPolicy::parse("10:"), Err(ParseError::BadPoints));
    assert_eq!(RetentionPolicy::parse("10:0d"), Err(ParseError::BadPoints));
    assert_eq!(RetentionPolicy::parse("10:1:2"), Err(ParseError::BadPoints));
    assert_eq!(RetentionPolicy::parse("10:-1"), Err(ParseError::BadPoints));
    assert_eq!(RetentionPolicy::parse("1\u{e9}:10"), Err(ParseError::BadPrecision));
}

#[test]
fn quantities_stop_at_64_bits() {
    assert_eq!(parse_quantity(b"18446744073709551615"), Some(u64::MAX));
    assert_eq!(parse_quantity(b"18446744073709551616"), None);
    assert_eq!(parse_quantity(b"99999999999999999999999"), None);
    assert_eq!(parse_quantity(b"307445734561825860m"), Some(307445734561825860 * 60));
    assert_eq!(parse_quantity(b"307445734561825861m"), None);
    assert_eq!(parse_quantity(b"1w"), Some(604800));
    assert_eq!(parse_quantity(b""), None);
    assert_eq!(parse_quantity(b"w"), None);
}

#[test]
fn schema_keeps_the_policies_in_order() {
    let schema = Schema::new_from_retention_specs(specs(&["60s:1440", "900s:8640"])).unwrap();
    assert_eq!(
        schema.retention_policies,
        vec![
            RetentionPolicy { precision: 60, points: 1440 },
            RetentionPolicy { precision: 900, points: 8640 },
        ]
    );
}

#[test]
fn no_specs_make_no_schema() {
    assert_eq!(Schema::new_from_retention_specs(vec![]), Err(SchemaError::Empty));
    assert_eq!(Schema::new(vec![]), Err(SchemaError::Empty));
}

#[test]
fn every_unparsable_spec_is_reported() {
    assert_eq!(
        Schema::new_from_retention_specs(specs(&["abc", "60:1440", "1x:5", "900:8640", ":"])),
        Err(SchemaError::Unparsable(vec![0, 2, 4]))
    );
}

#[test]
fn precision_that_does_not_divide_the_next_is_rejected() {
    assert_eq!(
        Schema::new_from_retention_specs(specs(&["7s:1d", "10s:1y"])),
        Err(SchemaError::Invalid(vec![1]))
    );
}

#[test]
fn span_that_does_not_grow_is_rejected() {
    assert_eq!(
        Schema::new_from_retention_specs(specs(&["60:1440", "120:720"])),
        Err(SchemaError::Invalid(vec![1]))
    );
    assert_eq!(
        Schema::new_from_retention_specs(specs(&["60:1440", "120:100"])),
        Err(SchemaError::Invalid(vec![1]))
    );
}

#[test]
fn precision_that_does_not_grow_is_rejected() {
    assert_eq!(
        Schema::new_from_retention_specs(specs(&["60:1440", "60:2880"])),
        Err(SchemaError::Invalid(vec![1]))
    );
    assert_eq!(
        Schema::new_from_retention_specs(specs(&["60:1440", "30:9000"])),
        Err(SchemaError::Invalid(vec![1]))
    );
}

#[test]
fn tier_too_short_for_one_bucket_is_rejected() {
    // Ten points of one second cannot fill a bucket of sixty seconds.
    assert_eq!(
        Schema::new_from_retention_specs(specs(&["1:10", "60:10"])),
        Err(SchemaError::Invalid(vec![1]))
    );
    assert!(Schema::new_from_retention_specs(specs(&["1:60", "60:10"])).is_ok());
}

#[test]
fn every_misfit_is_reported() {
    assert_eq!(
        Schema::new_from_retention_specs(specs(&["60:1440", "70:9000", "140:9000", "150:9000"])),
        Err(SchemaError::Invalid(vec![1, 3]))
    );
    assert_eq!(
        Schema::new(vec![
            RetentionPolicy { precision: 0, points: 5 },
            RetentionPolicy { precision: 10, points: 0 },
        ]),
        Err(SchemaError::Invalid(vec![0, 1]))
    );
}

#[test]
fn follows_compares_spans_beyond_64_bits() {
    let finer = RetentionPolicy { precision: 1 << 40, points: 1 << 40 };
    let coarser = RetentionPolicy { precision: 1 << 41, points: 1 << 40 };
    assert!(follows(&finer, &coarser));
    assert!(!follows(&coarser, &finer));
}
