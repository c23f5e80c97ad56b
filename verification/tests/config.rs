use rrtt::bitmap::Strategy;
use rrtt::config::{checked_priority_max, Config, ConfigError, PRIORITY_MAX_DEFAULT};

#[test]
fn nothing_set_gives_the_default() {
    assert_eq!(8, PRIORITY_MAX_DEFAULT);
    assert_eq!(
        Ok(Config { priority_max: 8, strategy: Strategy::Flat }),
        Config::from_setting(None)
    );
}

#[test]
fn decimal_text_is_taken() {
    assert_eq!(
        Ok(Config { priority_max: 1, strategy: Strategy::Flat }),
        Config::from_setting(Some("1"))
    );
    assert_eq!(
        Ok(Config { priority_max: 32, strategy: Strategy::Flat }),
        Config::from_setting(Some("32"))
    );
    assert_eq!(
        Ok(Config { priority_max: 33, strategy: Strategy::TwoLevel }),
        Config::from_setting(Some("33"))
    );
    assert_eq!(
        Ok(Config { priority_max: 256, strategy: Strategy::TwoLevel }),
        Config::from_setting(Some("256"))
    );
    assert_eq!(
        Ok(Config { priority_max: 7, strategy: Strategy::Flat }),
        Config::from_setting(Some("007"))
    );
}

#[test]
fn text_that_is_no_number_is_refused() {
    for text in ["", " ", "+5", "-1", "12a", "a12", "1 2", " 8", "8 ", "0x10", "٣", "1.5"] {
        assert_eq!(Err(ConfigError::NotANumber), Config::from_setting(Some(text)), "{:?}", text);
    }
    assert_eq!(
        Err(ConfigError::NotANumber),
        Config::from_setting(Some("99999999999999999999999999999999999999999"))
    );
}

#[test]
fn numbers_out_of_range_are_refused() {
    for text in ["0", "000", "257", "1000", "65536"] {
        assert_eq!(Err(ConfigError::OutOfRange), Config::from_setting(Some(text)), "{:?}", text);
    }
    assert_eq!(Err(ConfigError::OutOfRange), Config::new(0));
    assert_eq!(Err(ConfigError::OutOfRange), Config::new(257));
    assert_eq!(Ok(Config { priority_max: 40, strategy: Strategy::TwoLevel }), Config::new(40));
}

#[test]
fn parsed_number_is_checked_against_the_limits() {
    assert_eq!(Ok(12), checked_priority_max::<()>(Ok(12)));
    assert_eq!(Ok(256), checked_priority_max::<()>(Ok(256)));
    assert_eq!(Err(ConfigError::OutOfRange), checked_priority_max::<()>(Ok(0)));
    assert_eq!(Err(ConfigError::OutOfRange), checked_priority_max::<()>(Ok(257)));
    assert_eq!(Err(ConfigError::NotANumber), checked_priority_max(Err("bad")));
}
