use edge_relay::telegram::{parse, parse_duration, BotCommand, ParseError, DEFAULT_TIME_SEC};


#[test]
fn parses_vibrate_with_strength() {
    assert_eq!(
        parse("/vibrate 15"),
        Ok(BotCommand::Vibrate {
            strength: 15,
            time_sec: 0
        })
    );
}

#[test]
fn parses_vibrate_alias() {
    assert_eq!(
        parse("/v 7"),
        Ok(BotCommand::Vibrate {
            strength: 7,
            time_sec: 0
        })
    );
}

#[test]
fn parses_vibrate_with_plain_seconds() {
    assert_eq!(
        parse("/vibrate 10 30"),
        Ok(BotCommand::Vibrate {
            strength: 10,
            time_sec: 30
        })
    );
}

#[test]
fn parses_vibrate_with_second_suffix() {
    assert_eq!(
        parse("/vibrate 10 30s"),
        Ok(BotCommand::Vibrate {
            strength: 10,
            time_sec: 30
        })
    );
}

#[test]
fn parses_vibrate_with_minutes() {
    assert_eq!(
        parse("/vibrate 10 2m"),
        Ok(BotCommand::Vibrate {
            strength: 10,
            time_sec: 120
        })
    );
}

#[test]
fn parses_vibrate_with_hours() {
    assert_eq!(
        parse("/vibrate 1 1h"),
        Ok(BotCommand::Vibrate {
            strength: 1,
            time_sec: 3600
        })
    );
}

#[test]
fn clamps_strength_over_max() {
    assert_eq!(
        parse("/vibrate 50"),
        Ok(BotCommand::Vibrate {
            strength: 20,
            time_sec: 0
        })
    );
}

#[test]
fn accepts_strength_at_bounds() {
    assert!(matches!(
        parse("/vibrate 0"),
        Ok(BotCommand::Vibrate { strength: 0, .. })
    ));
    assert!(matches!(
        parse("/vibrate 20"),
        Ok(BotCommand::Vibrate { strength: 20, .. })
    ));
}

#[test]
fn vibrate_missing_strength_errors() {
    assert_eq!(parse("/vibrate"), Err(ParseError::MissingStrength));
    assert_eq!(parse("/v"), Err(ParseError::MissingStrength));
}

#[test]
fn vibrate_non_numeric_strength_errors() {
    assert_eq!(
        parse("/vibrate hard"),
        Err(ParseError::InvalidStrength("hard".into()))
    );
}

#[test]
fn vibrate_strength_above_u8_errors() {
    // 300 does not fit in u8, so it is rejected before clamping.
    assert_eq!(
        parse("/vibrate 300"),
        Err(ParseError::InvalidStrength("300".into()))
    );
}

#[test]
fn vibrate_negative_strength_errors() {
    assert_eq!(
        parse("/vibrate -5"),
        Err(ParseError::InvalidStrength("-5".into()))
    );
}

#[test]
fn vibrate_bad_duration_errors() {
    assert_eq!(
        parse("/vibrate 5 abc"),
        Err(ParseError::InvalidDuration("abc".into()))
    );
}

#[test]
fn parses_stop_and_aliases() {
    assert_eq!(parse("/stop"), Ok(BotCommand::Stop));
    assert_eq!(parse("/s"), Ok(BotCommand::Stop));
    assert_eq!(parse("/halt"), Ok(BotCommand::Stop));
}

#[test]
fn strips_bot_username_suffix() {
    assert_eq!(parse("/stop@edge_relay_bot"), Ok(BotCommand::Stop));
    assert_eq!(
        parse("/vibrate@edge_relay_bot 9"),
        Ok(BotCommand::Vibrate {
            strength: 9,
            time_sec: 0
        })
    );
}

#[test]
fn command_name_is_case_insensitive() {
    assert_eq!(parse("/STOP"), Ok(BotCommand::Stop));
    assert_eq!(
        parse("/Vibrate 3"),
        Ok(BotCommand::Vibrate {
            strength: 3,
            time_sec: 0
        })
    );
}

#[test]
fn parses_pair_help_status_and_aliases() {
    assert_eq!(parse("/pair"), Ok(BotCommand::Pair));
    assert_eq!(parse("/link"), Ok(BotCommand::Pair));
    assert_eq!(parse("/help"), Ok(BotCommand::Help));
    assert_eq!(parse("/start"), Ok(BotCommand::Help));
    assert_eq!(parse("/status"), Ok(BotCommand::Status));
}

#[test]
fn tolerates_surrounding_whitespace() {
    assert_eq!(parse("   /stop   "), Ok(BotCommand::Stop));
    assert_eq!(
        parse("\t/vibrate   8\n"),
        Ok(BotCommand::Vibrate {
            strength: 8,
            time_sec: 0
        })
    );
}

#[test]
fn empty_text_errors() {
    assert_eq!(parse(""), Err(ParseError::Empty));
    assert_eq!(parse("   "), Err(ParseError::Empty));
    assert_eq!(parse("\t\n"), Err(ParseError::Empty));
}

#[test]
fn non_command_text_errors() {
    assert_eq!(parse("hello there"), Err(ParseError::NotACommand));
    assert_eq!(parse("vibrate 5"), Err(ParseError::NotACommand));
}

#[test]
fn unknown_command_errors() {
    assert_eq!(
        parse("/foobar"),
        Err(ParseError::UnknownCommand("foobar".into()))
    );
    assert_eq!(
        parse("/foobar@bot extra"),
        Err(ParseError::UnknownCommand("foobar".into()))
    );
}

#[test]
fn bare_slash_is_unknown_empty_command() {
    assert_eq!(parse("/"), Err(ParseError::UnknownCommand("".into())));
}

#[test]
fn duration_plain_number_is_seconds() {
    assert_eq!(parse_duration("45"), Ok(45));
    assert_eq!(parse_duration("0"), Ok(0));
}

#[test]
fn duration_suffixes() {
    assert_eq!(parse_duration("90s"), Ok(90));
    assert_eq!(parse_duration("3m"), Ok(180));
    assert_eq!(parse_duration("2h"), Ok(7200));
}

#[test]
fn duration_empty_errors() {
    assert_eq!(
        parse_duration(""),
        Err(ParseError::InvalidDuration("".into()))
    );
    assert_eq!(
        parse_duration("   "),
        Err(ParseError::InvalidDuration("".into()))
    );
}

#[test]
fn duration_bare_suffix_errors() {
    // "s" with no number is invalid.
    assert_eq!(
        parse_duration("s"),
        Err(ParseError::InvalidDuration("s".into()))
    );
    assert_eq!(
        parse_duration("m"),
        Err(ParseError::InvalidDuration("m".into()))
    );
}

#[test]
fn duration_overflow_errors() {
    // 100_000_000 minutes overflows u32 seconds.
    assert_eq!(
        parse_duration("100000000m"),
        Err(ParseError::InvalidDuration("100000000m".into()))
    );
}

#[test]
fn duration_non_numeric_errors() {
    assert_eq!(
        parse_duration("abc"),
        Err(ParseError::InvalidDuration("abc".into()))
    );
}

#[test]
fn to_lovense_maps_vibrate() {
    let c = BotCommand::Vibrate {
        strength: 8,
        time_sec: 5,
    }
    .to_lovense()
    .unwrap();
    assert_eq!(c.action(), "Vibrate:8");
    assert_eq!(c.time_sec(), 5);
}

#[test]
fn to_lovense_maps_stop() {
    assert_eq!(BotCommand::Stop.to_lovense().unwrap().action(), "Stop");
}

#[test]
fn to_lovense_none_for_meta_commands() {
    assert!(BotCommand::Pair.to_lovense().is_none());
    assert!(BotCommand::Help.to_lovense().is_none());
    assert!(BotCommand::Status.to_lovense().is_none());
}

#[test]
fn default_time_sec_is_zero() {
    assert_eq!(DEFAULT_TIME_SEC, 0);
}

#[test]
fn strength_accepts_plus_sign_and_clamps_at_u8_max() {
    assert_eq!(parse("/v +7"), Ok(BotCommand::Vibrate { strength: 7, time_sec: 0 }));
    assert_eq!(parse("/v 255"), Ok(BotCommand::Vibrate { strength: 20, time_sec: 0 }));
    assert_eq!(parse("/v 256"), Err(ParseError::InvalidStrength("256".into())));
    assert_eq!(parse("/v +"), Err(ParseError::InvalidStrength("+".into())));
}

#[test]
fn strength_is_checked_before_duration() {
    assert_eq!(parse("/v x y"), Err(ParseError::InvalidStrength("x".into())));
}

#[test]
fn extra_words_after_duration_are_ignored() {
    assert_eq!(parse("/v 3 1m please"), Ok(BotCommand::Vibrate { strength: 3, time_sec: 60 }));
    assert_eq!(parse("/stop now"), Ok(BotCommand::Stop));
}

#[test]
fn unicode_whitespace_separates_and_surrounds_words() {
    assert_eq!(parse("\u{3000}/stop\u{a0}"), Ok(BotCommand::Stop));
    assert_eq!(parse("/v\u{2003}5\u{2028}2h"), Ok(BotCommand::Vibrate { strength: 5, time_sec: 7200 }));
}

#[test]
fn unknown_command_is_reported_lowercased() {
    assert_eq!(parse("/FooBar"), Err(ParseError::UnknownCommand("foobar".into())));
    assert_eq!(parse("/STÖP"), Err(ParseError::UnknownCommand("stöp".into())));
    assert_eq!(parse("/@bot"), Err(ParseError::UnknownCommand("".into())));
}

#[test]
fn slash_inside_word_is_not_a_command() {
    assert_eq!(parse("a/stop"), Err(ParseError::NotACommand));
}

#[test]
fn duration_bounds_of_u32() {
    assert_eq!(parse_duration("4294967295"), Ok(u32::MAX));
    assert_eq!(parse_duration("4294967296"), Err(ParseError::InvalidDuration("4294967296".into())));
    assert_eq!(parse_duration("1193046h"), Ok(4294965600));
    assert_eq!(parse_duration("1193047h"), Err(ParseError::InvalidDuration("1193047h".into())));
    assert_eq!(parse_duration("71582788m"), Ok(4294967280));
}

#[test]
fn duration_trims_and_reports_the_trimmed_text() {
    assert_eq!(parse_duration("  30s \n"), Ok(30));
    assert_eq!(parse_duration(" 5x "), Err(ParseError::InvalidDuration("5x".into())));
    assert_eq!(parse_duration("+5m"), Ok(300));
    assert_eq!(parse_duration("5 m"), Err(ParseError::InvalidDuration("5 m".into())));
    assert_eq!(parse_duration("5ms"), Err(ParseError::InvalidDuration("5ms".into())));
}

#[test]
fn parsed_vibrate_maps_to_the_same_lovense_command() {
    let cmd = parse("/v 50 2m").unwrap().to_lovense().unwrap();
    assert_eq!(cmd.action(), "Vibrate:20");
    assert_eq!(cmd.time_sec(), 120);
    assert_eq!(DEFAULT_TIME_SEC, parse("/v 1").map(|c| match c {
        BotCommand::Vibrate { time_sec, .. } => time_sec,
        _ => 1,
    }).unwrap());
}

#[test]
fn whitespace_between_words_does_not_matter() {
    assert_eq!(parse("/v   5\t\t2m"), parse("/v 5 2m"));
    assert_eq!(parse("/v \u{2003}\n 5"), Ok(BotCommand::Vibrate { strength: 5, time_sec: 0 }));
}

#[test]
fn uppercase_name_with_bot_suffix_reads_as_lowercase_name() {
    assert_eq!(parse("/VIBRATE@some_bot 4 10s"), parse("/vibrate 4 10s"));
    assert_eq!(parse("/HaLt@x"), Ok(BotCommand::Stop));
}

#[test]
fn parse_errors_compare_by_kind_and_text() {
    assert_eq!(ParseError::InvalidStrength("a".into()), ParseError::InvalidStrength("a".into()));
    assert_ne!(ParseError::InvalidStrength("a".into()), ParseError::InvalidStrength("b".into()));
    assert_ne!(ParseError::InvalidStrength("a".into()), ParseError::InvalidDuration("a".into()));
    assert_ne!(ParseError::Empty, ParseError::NotACommand);
    assert_eq!(ParseError::MissingStrength, ParseError::MissingStrength);
}
