use sssp_core::options::{
    bound_or_none, flag_or_unset, parse_flag, parse_list, parse_quantile, parse_thousandths,
    parse_u32, share_or, thousandths_opt, trim, u32_opt, u32_or, THOUSANDTHS_MAX,
};

#[test]
fn unsigned_numbers() {
    assert_eq!(parse_u32(b"1024"), Some(1024));
    assert_eq!(parse_u32(b"  +7\n"), Some(7));
    assert_eq!(parse_u32(b"0"), Some(0));
    assert_eq!(parse_u32(b"4294967295"), Some(u32::MAX));
    assert_eq!(parse_u32(b"4294967296"), None);
    assert_eq!(parse_u32(b"99999999999999999999999999"), None);
    assert_eq!(parse_u32(b""), None);
    assert_eq!(parse_u32(b"+"), None);
    assert_eq!(parse_u32(b"-3"), None);
    assert_eq!(parse_u32(b"12a"), None);
    assert_eq!(parse_u32(b"1 2"), None);
    assert_eq!(trim(b"  ab \t"), (2, 4));
    assert_eq!(trim(b"   "), (3, 3));
}

#[test]
fn decimal_numbers_in_thousandths() {
    assert_eq!(parse_thousandths(b"1.5"), Some(1500));
    assert_eq!(parse_thousandths(b"3"), Some(3000));
    assert_eq!(parse_thousandths(b"0.15"), Some(150));
    assert_eq!(parse_thousandths(b".5"), Some(500));
    assert_eq!(parse_thousandths(b"2."), Some(2000));
    assert_eq!(parse_thousandths(b" +0.0019 "), Some(1));
    assert_eq!(parse_thousandths(b"0.0009"), Some(0));
    assert_eq!(parse_thousandths(b"."), None);
    assert_eq!(parse_thousandths(b""), None);
    assert_eq!(parse_thousandths(b"1.2.3"), None);
    assert_eq!(parse_thousandths(b"1e3"), None);
    assert_eq!(parse_thousandths(b"-1"), None);
    assert_eq!(parse_thousandths(b"inf"), None);
    assert_eq!(parse_thousandths(b"1152921504606846.975"), Some(THOUSANDTHS_MAX));
    assert_eq!(parse_thousandths(b"1152921504606846.976"), None);
    assert_eq!(parse_thousandths(b"99999999999999999999"), None);
}

#[test]
fn flags_and_names() {
    assert!(parse_flag(b"1"));
    assert!(parse_flag(b"true"));
    assert!(parse_flag(b"TrUe"));
    assert!(!parse_flag(b"0"));
    assert!(!parse_flag(b"yes"));
    assert!(!parse_flag(b" 1"));
    assert!(!parse_flag(b"truE "));
    assert!(!parse_flag(b""));
    assert!(parse_quantile(b"quantile"));
    assert!(!parse_quantile(b"Quantile"));
    assert!(!parse_quantile(b"average"));
    assert!(!parse_quantile(b"quantiles"));
}

#[test]
fn lists_keep_the_positive_numbers() {
    assert_eq!(parse_list(b"1.5,2,3,4,6"), vec![1500, 2000, 3000, 4000, 6000]);
    assert_eq!(parse_list(b" 1.5 , x, 0, ,2.25,"), vec![1500, 2250]);
    assert_eq!(parse_list(b""), Vec::<u64>::new());
    assert_eq!(parse_list(b",,"), Vec::<u64>::new());
    assert_eq!(parse_list(b"7"), vec![7000]);
}

#[test]
fn missing_or_bad_options_leave_the_default() {
    assert_eq!(u32_or(None, 8), 8);
    assert_eq!(u32_or(Some(b"x"), 8), 8);
    assert_eq!(u32_or(Some(b"12"), 8), 12);
    assert_eq!(u32_opt(None), None);
    assert_eq!(u32_opt(Some(b"5")), Some(5));
    assert_eq!(thousandths_opt(Some(b"0.7")), Some(700));
    assert_eq!(thousandths_opt(None), None);
    assert_eq!(share_or(Some(b"0.25"), 50), 250);
    assert_eq!(share_or(Some(b"nope"), 50), 50);
    assert_eq!(share_or(Some(b"9999999"), 50), u32::MAX);
    assert_eq!(bound_or_none(None), u64::MAX);
    assert_eq!(bound_or_none(Some(b"inf")), u64::MAX);
    assert_eq!(bound_or_none(Some(b"2.5")), 2_500_000);
    assert_eq!(bound_or_none(Some(b"1152921504606846.975")), u64::MAX - 1);
    assert!(flag_or_unset(Some(b"1")));
    assert!(!flag_or_unset(None));
}
