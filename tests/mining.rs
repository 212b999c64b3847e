use zkvm_jetpack::mining::{parse_u64, MiningKeyConfig, NumberError};

#[test]
fn parse_key_config() {
    let c: MiningKeyConfig = "3,2:alpha,beta,gamma".parse().unwrap();
    assert_eq!(c.share, 3);
    assert_eq!(c.m, 2);
    assert_eq!(c.keys, vec!["alpha".to_string(), "beta".to_string(), "gamma".to_string()]);
}

#[test]
fn parse_key_config_keeps_empty_keys() {
    let c = MiningKeyConfig::parse("1,1:").unwrap();
    assert_eq!(c.keys, vec![String::new()]);
    let c = MiningKeyConfig::parse("+7,0:a,,b").unwrap();
    assert_eq!((c.share, c.m), (7, 0));
    assert_eq!(c.keys, vec!["a".to_string(), String::new(), "b".to_string()]);
}

#[test]
fn parse_key_config_format_errors() {
    let fmt = "Invalid format. Expected 'share,m:key1,key2,key3'".to_string();
    assert_eq!(MiningKeyConfig::parse("1,2").err(), Some(fmt.clone()));
    assert_eq!(MiningKeyConfig::parse("1,2:a:b").err(), Some(fmt));
    let sm = "Invalid share,m format".to_string();
    assert_eq!(MiningKeyConfig::parse("12:a").err(), Some(sm.clone()));
    assert_eq!(MiningKeyConfig::parse("1,2,3:a").err(), Some(sm));
}

#[test]
fn parse_key_config_number_errors() {
    assert_eq!(
        MiningKeyConfig::parse("x,2:a").err(),
        Some("invalid digit found in string".to_string())
    );
    assert_eq!(
        MiningKeyConfig::parse(",2:a").err(),
        Some("cannot parse integer from empty string".to_string())
    );
    assert_eq!(
        MiningKeyConfig::parse("1,99999999999999999999:a").err(),
        Some("number too large to fit in target type".to_string())
    );
}

#[test]
fn parse_u64_matches_std() {
    for text in ["0", "42", "+42", "18446744073709551615", "18446744073709551616", "", "+", "-1", "1 ", "0x10", "007"] {
        let ours = parse_u64(text);
        let std = text.parse::<u64>();
        match (ours, std) {
            (Ok(a), Ok(b)) => assert_eq!(a, b),
            (Err(e), Err(se)) => assert_eq!(e.to_message(), se.to_string()),
            (o, s) => panic!("mismatch on {:?}: {:?} vs {:?}", text, o, s),
        }
    }
    assert_eq!(parse_u64(""), Err(NumberError::Empty));
}
