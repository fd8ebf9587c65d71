use voice_chat::devices::{
    config_line, device_line, f32_configs, is_default_device, ConfigRange,
};
use voice_chat::select::{
    entered_rate, invalid_rate_message, invalid_selection_message, pick_sample_rate, rate_notice,
    rate_prompt, select_item, select_prompt, selected_index, RateChoice, SelectError,
};
use voice_chat::text::{parse_decimal, push_decimal};

fn decimal(n: u64) -> String {
    let mut text = String::from("n=");
    push_decimal(&mut text, n);
    text
}

#[test]
fn decimals_are_written() {
    assert_eq!(decimal(0), "n=0");
    assert_eq!(decimal(9), "n=9");
    assert_eq!(decimal(10), "n=10");
    assert_eq!(decimal(48000), "n=48000");
    assert_eq!(decimal(1234567890), "n=1234567890");
    assert_eq!(decimal(u64::MAX), format!("n={}", u64::MAX));
}

#[test]
fn decimals_are_read() {
    assert_eq!(parse_decimal("0", 10), Some(0));
    assert_eq!(parse_decimal("+7", 10), Some(7));
    assert_eq!(parse_decimal("007", 10), Some(7));
    assert_eq!(parse_decimal("10", 10), Some(10));
    assert_eq!(parse_decimal("11", 10), None);
    assert_eq!(parse_decimal("18446744073709551615", u64::MAX), Some(u64::MAX));
    assert_eq!(parse_decimal("18446744073709551616", u64::MAX), None);
    assert_eq!(parse_decimal("99999999999999999999999999", u64::MAX), None);
}

#[test]
fn other_texts_are_no_decimals() {
    for text in ["", "+", "-", "-1", "++1", "1 ", " 1", "1a", "0x10", "1.0", "1_000", "\u{661}"] {
        assert_eq!(parse_decimal(text, u64::MAX), None);
        assert!(text.parse::<u64>().is_err());
    }
}

#[test]
fn decimals_read_as_std_reads_them() {
    for text in ["0", "00", "+0", "5", "42", "+42", "4294967295", "4294967296", "é", "1é"] {
        assert_eq!(parse_decimal(text, u32::MAX as u64), text.parse::<u32>().ok().map(u64::from));
    }
}

#[test]
fn written_decimals_read_back() {
    for n in [0, 1, 99, 100, 65535, 4294967296, u64::MAX] {
        let text = decimal(n);
        assert_eq!(parse_decimal(&text[2..], u64::MAX), Some(n));
    }
}

#[test]
fn select_prompt_shows_the_range() {
    assert_eq!(
        select_prompt("Select input device", 3),
        Ok(String::from("Select input device [0-2]: "))
    );
    assert_eq!(
        select_prompt("Select output config", 1),
        Ok(String::from("Select output config [0-0]: "))
    );
    assert_eq!(select_prompt("", 101), Ok(String::from(" [0-100]: ")));
}

#[test]
fn nothing_to_select_is_an_error() {
    assert_eq!(select_prompt("Select input device", 0), Err(SelectError::NoItems));
    assert_eq!(SelectError::NoItems.message(), "No items available to select");
}

#[test]
fn typed_numbers_select() {
    let items = vec!["a", "b", "c"];
    assert_eq!(select_item(&items, "0\n"), Some(&"a"));
    assert_eq!(select_item(&items, " 1\n"), Some(&"b"));
    assert_eq!(select_item(&items, "\t2 \r\n"), Some(&"c"));
    assert_eq!(select_item(&items, "+2"), Some(&"c"));
    assert_eq!(select_item(&items, "\u{3000}1\u{a0}"), Some(&"b"));
}

#[test]
fn other_lines_select_nothing() {
    let items = vec!["a", "b", "c"];
    for line in ["3\n", "", "\n", "-1\n", "b\n", "1 2\n", "99999999999999999999999\n"] {
        assert_eq!(select_item(&items, line), None);
    }
    assert_eq!(selected_index("0", 0), None);
    assert_eq!(selected_index("2", 3), Some(2));
}

#[test]
fn zero_width_space_is_not_trimmed() {
    assert_eq!(selected_index("\u{200b}1", 3), None);
    assert_eq!(selected_index("\u{2003}1\u{2028}", 3), Some(1));
}

#[test]
fn single_rate_is_taken() {
    assert_eq!(pick_sample_rate(44100, 44100), RateChoice::Only(44100));
    assert_eq!(pick_sample_rate(48000, 48000), RateChoice::Only(48000));
}

#[test]
fn preferred_rates_in_their_order() {
    assert_eq!(pick_sample_rate(8000, 192000), RateChoice::Preferred(48000));
    assert_eq!(pick_sample_rate(8000, 48000), RateChoice::Preferred(48000));
    assert_eq!(pick_sample_rate(8000, 47999), RateChoice::Preferred(24000));
    assert_eq!(pick_sample_rate(8000, 22050), RateChoice::Preferred(16000));
    assert_eq!(pick_sample_rate(8000, 15999), RateChoice::Preferred(12000));
    assert_eq!(pick_sample_rate(4000, 11025), RateChoice::Preferred(8000));
}

#[test]
fn other_ranges_are_asked_for() {
    assert_eq!(pick_sample_rate(48001, 192000), RateChoice::Ask);
    assert_eq!(pick_sample_rate(32000, 44100), RateChoice::Ask);
    assert_eq!(pick_sample_rate(1000, 7999), RateChoice::Ask);
    assert_eq!(pick_sample_rate(48000, 8000), RateChoice::Ask);
}

#[test]
fn entered_rates_are_checked() {
    assert_eq!(entered_rate("44100\n", 32000, 44100), Some(44100));
    assert_eq!(entered_rate(" 32000 \n", 32000, 44100), Some(32000));
    assert_eq!(entered_rate("31999\n", 32000, 44100), None);
    assert_eq!(entered_rate("44101\n", 32000, 44100), None);
    assert_eq!(entered_rate("\n", 32000, 44100), None);
    assert_eq!(entered_rate("44.1k\n", 32000, 44100), None);
    assert_eq!(entered_rate("4294967296\n", 0, u32::MAX), None);
    assert_eq!(entered_rate("4294967295\n", 0, u32::MAX), Some(u32::MAX));
}

#[test]
fn rejected_lines_are_answered() {
    assert_eq!(invalid_selection_message(), "Invalid selection, try again.");
    assert_eq!(invalid_rate_message(), "Invalid sample rate, try again.");
}

#[test]
fn rate_texts() {
    assert_eq!(rate_prompt(32000, 44100), "Enter sample rate (32000-44100): ");
    assert_eq!(rate_notice(48000), "Auto-selected sample rate: 48000");
}

#[test]
fn default_device_is_known_by_its_id() {
    let a = Some(String::from("alsa:hw0"));
    let b = Some(String::from("alsa:hw1"));
    assert!(is_default_device(&a, &a.clone()));
    assert!(!is_default_device(&a, &b));
    assert!(!is_default_device(&None, &b));
    assert!(!is_default_device(&a, &None));
    assert!(!is_default_device(&None, &None));
}

#[test]
fn device_lines() {
    assert_eq!(device_line(0, "Ok(Mic)", true), "  [0] Ok(Mic) (default)");
    assert_eq!(device_line(12, "Ok(Line)", false), "  [12] Ok(Line)");
}

#[test]
fn config_lines_and_filter() {
    let f32_config =
        ConfigRange { channels: 2, min_rate: 8000, max_rate: 48000, is_f32: true };
    let other = ConfigRange { is_f32: false, ..f32_config };
    assert_eq!(
        config_line(3, &f32_config),
        "  [3] channels=2, sample_rate=8000..48000, sample_format=F32"
    );
    let kept = f32_configs(vec![
        (other, 'a'),
        (f32_config, 'b'),
        (other, 'c'),
        (f32_config, 'd'),
        (f32_config, 'e'),
    ]);
    assert_eq!(kept, vec![(f32_config, 'b'), (f32_config, 'd'), (f32_config, 'e')]);
    assert_eq!(f32_configs(vec![(other, 0)]), vec![]);
    assert_eq!(f32_configs::<u8>(vec![]), vec![]);
}
