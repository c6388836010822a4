use base64::Engine;
use password_manager::text::{
    format_zero_padded3, join_with_bars, parse_i32_text, split_text,
};
use password_manager::vault::{
    account_passwords, custom_id_prefix, encrypted_entry, entry_is_decryptable, id_like_pattern,
    id_number, ids_can_be_counted, inserted_user_message, next_custom_id, read_entry,
    splits_after_two_bytes,
};
use password_manager::windows::{
    close_windows_plan, is_password_open, sign_out_plan, ClosePlan, SignOutPlan, WindowState,
};

fn strings(v: &[&str]) -> Vec<String> {
    v.iter().map(|s| s.to_string()).collect()
}

#[test]
fn prefix_is_first_two_bytes_upper_cased() {
    assert_eq!(custom_id_prefix("john@example.com"), "JO");
    assert_eq!(custom_id_prefix("aB"), "AB");
    assert_eq!(custom_id_prefix("éclair"), "É");
    assert_eq!(custom_id_prefix("ßx"), "SS");
}

#[test]
fn byte_offset_two_must_fall_between_characters() {
    assert!(splits_after_two_bytes("ab"));
    assert!(splits_after_two_bytes("é"));
    assert!(!splits_after_two_bytes("aé"));
    assert!(!splits_after_two_bytes("a"));
    assert!(!splits_after_two_bytes("€"));
}

#[test]
fn like_pattern_appends_percent() {
    assert_eq!(id_like_pattern("JO"), "JO%");
}

#[test]
fn id_number_reads_after_two_bytes() {
    assert_eq!(id_number("JO007"), 7);
    assert_eq!(id_number("JOabc"), 0);
    assert_eq!(id_number("JO"), 0);
    assert_eq!(id_number("JO-4"), -4);
    assert_eq!(id_number("JO+12"), 12);
}

#[test]
fn first_id_for_a_prefix_is_001() {
    assert_eq!(next_custom_id("JO", &Vec::new()), "JO001");
}

#[test]
fn next_id_counts_on_from_the_largest() {
    let ids = strings(&["JO001", "JO007", "JO003", "JOxyz", "JO-9"]);
    assert_eq!(next_custom_id("JO", &ids), "JO008");
}

#[test]
fn next_id_grows_past_three_digits() {
    assert_eq!(next_custom_id("AB", &strings(&["AB999"])), "AB1000");
}

#[test]
fn next_id_is_new() {
    let ids = strings(&["JO001", "JO002", "JO2"]);
    let id = next_custom_id("JO", &ids);
    assert_eq!(id, "JO003");
    assert!(!ids.contains(&id));
}

#[test]
fn ids_at_the_top_of_the_range_cannot_be_counted_on() {
    assert!(ids_can_be_counted(&strings(&["JO001", "JO2147483646"])));
    assert!(!ids_can_be_counted(&strings(&["JO2147483647"])));
    assert!(!ids_can_be_counted(&strings(&["J"])));
    assert!(ids_can_be_counted(&Vec::new()));
}

#[test]
fn confirmation_names_the_id() {
    assert_eq!(inserted_user_message("JO001"), "User inserted with ID: JO001");
}

#[test]
fn decimal_parse_follows_str_parse() {
    for s in [
        "", "+", "-", "0", "-0", "+7", "0012", "2147483647", "2147483648", "-2147483648",
        "-2147483649", " 1", "1 ", "1a", "99999999999999999999", "--1", "+-1",
    ] {
        assert_eq!(parse_i32_text(s), s.parse::<i32>().ok(), "input {:?}", s);
    }
}

#[test]
fn zero_padding_to_three_digits() {
    assert_eq!(format_zero_padded3(0), "000");
    assert_eq!(format_zero_padded3(1), "001");
    assert_eq!(format_zero_padded3(42), "042");
    assert_eq!(format_zero_padded3(123), "123");
    assert_eq!(format_zero_padded3(1234), "1234");
    for n in [5u32, 77, 100, 65536, 2147483647] {
        assert_eq!(format_zero_padded3(n), format!("{:03}", n));
    }
}

#[test]
fn split_follows_str_split() {
    for s in ["a|b|c", "", "|", "a||b", "|a|", "no bar", "ü|€|x"] {
        let expected: Vec<String> = s.split('|').map(|p| p.to_string()).collect();
        assert_eq!(split_text(s, '|'), expected, "input {:?}", s);
    }
}

#[test]
fn join_puts_bars_between() {
    assert_eq!(join_with_bars("a", "b", "c"), "a|b|c");
    assert_eq!(join_with_bars("", "", ""), "||");
}

#[test]
fn stored_entry_reads_back() {
    let master = "$argon2id$v=19$m=19456,t=2,p=1$abc$def".to_string();
    let entry = encrypted_entry(master.clone(), "hunter2".to_string());
    assert_eq!(entry.matches('|').count(), 2);
    assert!(entry_is_decryptable(&master, &entry));
    assert_eq!(
        read_entry(&master, &"example.com".to_string(), &entry),
        Ok("hunter2".to_string())
    );
}

#[test]
fn entry_without_three_pieces_is_a_format_error() {
    assert_eq!(
        read_entry(&"m".to_string(), &"site".to_string(), &"abc|def".to_string()),
        Err("Password format error for site".to_string())
    );
}

#[test]
fn entry_under_another_master_reports_the_site() {
    let entry = encrypted_entry("m".to_string(), "pw".to_string());
    assert_eq!(
        read_entry(&"n".to_string(), &"site".to_string(), &entry),
        Err("Error decrypting password for site: Decryption failed".to_string())
    );
}

#[test]
fn entry_with_short_nonce_is_not_decryptable() {
    let entry = "YWJjZGVmZ2hpamtsbW5vcHFyc3R1dg==|AAAA|AAAA".to_string();
    assert!(!entry_is_decryptable(&"m".to_string(), &entry));
    let short_salt = "YWJj|AAAAAAAAAAAAAAAA|AAAA".to_string();
    assert!(!entry_is_decryptable(&"m".to_string(), &short_salt));
    assert!(entry_is_decryptable(&"m".to_string(), &"x|y".to_string()));
    assert!(entry_is_decryptable(&"m".to_string(), &"!|AAAA|AAAA".to_string()));
}

#[test]
fn account_passwords_keeps_readable_entries_in_order() {
    let master = "m".to_string();
    let a = encrypted_entry(master.clone(), "one".to_string());
    let b = encrypted_entry(master.clone(), "two".to_string());
    let rows = vec![
        Ok((1i64, "a.com".to_string(), a)),
        Err("row failed".to_string()),
        Ok((2i64, "b.com".to_string(), "broken".to_string())),
        Ok((3i64, "c.com".to_string(), b)),
    ];
    let (found, notes) = account_passwords(&master, &rows);
    assert_eq!(
        found,
        vec![
            (1, "a.com".to_string(), "one".to_string()),
            (3, "c.com".to_string(), "two".to_string())
        ]
    );
    assert_eq!(
        notes,
        strings(&[
            "Error retrieving account: row failed",
            "Password format error for b.com"
        ])
    );
}

#[test]
fn sign_out_reopens_start_and_closes_main() {
    let state = WindowState { start_window: false, main_window: true, password_window: false };
    assert_eq!(
        sign_out_plan(state),
        SignOutPlan { reopen_start_window: true, close_main_window: true }
    );
    let state = WindowState { start_window: true, main_window: false, password_window: true };
    assert_eq!(
        sign_out_plan(state),
        SignOutPlan { reopen_start_window: false, close_main_window: false }
    );
}

#[test]
fn closing_start_up_windows_closes_the_open_ones() {
    let state = WindowState { start_window: true, main_window: false, password_window: false };
    assert_eq!(
        close_windows_plan(state),
        ClosePlan { close_password_window: false, close_start_window: true }
    );
    assert!(!is_password_open(state));
    let state = WindowState { start_window: true, main_window: false, password_window: true };
    assert!(is_password_open(state));
}

#[test]
fn next_id_for_john_follows_the_largest_jo_counter() {
    let prefix = custom_id_prefix("john@x.com");
    assert_eq!(prefix, "JO");
    assert_eq!(id_like_pattern(&prefix), "JO%");
    let selected = strings(&["JO001", "JO005"]);
    assert_eq!(next_custom_id(&prefix, &selected), "JO006");
}

#[test]
fn first_account_for_alice_is_al001() {
    let prefix = custom_id_prefix("alice@example.com");
    let id = next_custom_id(&prefix, &Vec::new());
    assert_eq!(id, "AL001");
    assert_eq!(inserted_user_message(&id), "User inserted with ID: AL001");
}

#[test]
fn encrypted_entry_pieces_have_the_stated_lengths() {
    let entry = encrypted_entry("m".to_string(), "pässword".to_string());
    let pieces: Vec<&str> = entry.split('|').collect();
    assert_eq!(pieces.len(), 3);
    let decode = |t: &str| base64::engine::general_purpose::STANDARD.decode(t).unwrap();
    assert_eq!(decode(pieces[0]).len(), 22);
    assert_eq!(decode(pieces[1]).len(), 12);
    assert_eq!(decode(pieces[2]).len(), "pässword".len() + 16);
}
