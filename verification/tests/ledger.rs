use ledger_tui::aggregate::{category_percentages, month_of, monthly_spending};
use ledger_tui::amount::{format_amount, parse_amount};
use ledger_tui::app::{App, FocusMode, Key};
use ledger_tui::models::{AppState, Budget, Tab, Transaction};
use ledger_tui::storage::{load_transactions, save_transactions};

fn tx(amount: i64, category: &str, date: &str, description: &str) -> Transaction {
    Transaction {
        amount,
        category: category.to_string(),
        date: date.to_string(),
        description: description.to_string(),
    }
}

fn type_text(app: &mut App, text: &str) {
    for c in text.chars() {
        assert!(app.handle_input(Key::Char(c)));
    }
}

fn as_map<V: Copy>(pairs: &[(String, V)]) -> std::collections::BTreeMap<String, V> {
    let mut m = std::collections::BTreeMap::new();
    for (k, v) in pairs {
        assert!(m.insert(k.clone(), *v).is_none(), "duplicate key");
    }
    m
}

#[test]
fn parse_amount_whole_and_decimal() {
    assert_eq!(parse_amount("12"), Some(1200));
    assert_eq!(parse_amount("-50"), Some(-5000));
    assert_eq!(parse_amount("3.5"), Some(350));
    assert_eq!(parse_amount("3.57"), Some(357));
    assert_eq!(parse_amount("0.05"), Some(5));
    assert_eq!(parse_amount("-0.05"), Some(-5));
    assert_eq!(parse_amount("007"), Some(700));
}

#[test]
fn parse_amount_rejects_garbage() {
    assert_eq!(parse_amount(""), None);
    assert_eq!(parse_amount("abc"), None);
    assert_eq!(parse_amount("-"), None);
    assert_eq!(parse_amount(".5"), None);
    assert_eq!(parse_amount("1.234"), None);
    assert_eq!(parse_amount("1.2.3"), None);
    assert_eq!(parse_amount("12a"), None);
    assert_eq!(parse_amount("99999999999999999999"), None);
}

#[test]
fn format_amount_writes_two_decimals() {
    assert_eq!(format_amount(0), "0.00");
    assert_eq!(format_amount(-5000), "-50.00");
    assert_eq!(format_amount(1234), "12.34");
    assert_eq!(format_amount(5), "0.05");
    assert_eq!(format_amount(-5), "-0.05");
}

#[test]
fn format_then_parse_is_identity() {
    for cents in [0i64, 1, -1, 99, 100, -12345, 987654321, -1_000_000_000_000_000] {
        assert_eq!(parse_amount(&format_amount(cents)), Some(cents));
    }
}

#[test]
fn total_is_sum_of_added_amounts() {
    let mut b = Budget::new();
    assert_eq!(b.total_balance(), 0);
    b.add_transaction(tx(20000, "Salary", "2025-02-01", "pay"));
    b.add_transaction(tx(-5000, "Groceries", "2025-02-02", "food"));
    b.add_transaction(tx(-1250, "Coffee", "2025-02-03", ""));
    assert_eq!(b.total_balance(), 13750);
}

#[test]
fn total_is_order_independent() {
    let items = [20000i64, -5000, -1250, 7, -7];
    let mut b1 = Budget::new();
    for a in items {
        b1.add_transaction(tx(a, "c", "2025-01-01", ""));
    }
    let mut b2 = Budget::new();
    for a in items.iter().rev() {
        b2.add_transaction(tx(*a, "c", "2025-01-01", ""));
    }
    assert_eq!(b1.total_balance(), b2.total_balance());
}

#[test]
fn spending_by_category_groups_negatives_only() {
    let mut b = Budget::new();
    b.add_transaction(tx(20000, "Salary", "2025-02-01", ""));
    b.add_transaction(tx(-5000, "Groceries", "2025-02-02", ""));
    b.add_transaction(tx(-1500, "Groceries", "2025-02-09", ""));
    b.add_transaction(tx(-800, "Coffee", "2025-02-10", ""));
    let got = as_map(&b.spending_by_category());
    assert_eq!(got.len(), 2);
    assert_eq!(got["Groceries"], 6500);
    assert_eq!(got["Coffee"], 800);
    // the values sum to all spending
    let total_spend: i128 = got.values().sum();
    assert_eq!(total_spend, 7300);
}

#[test]
fn spending_values_sum_to_negative_total() {
    let mut b = Budget::new();
    for (a, c) in [(-101i64, "a"), (250, "b"), (-9, "a"), (-40, "c"), (3, "a")] {
        b.add_transaction(tx(a, c, "2025-03-03", ""));
    }
    let sum: i128 = b.spending_by_category().iter().map(|p| p.1).sum();
    assert_eq!(sum, 101 + 9 + 40);
}

#[test]
fn remove_transaction_shifts_and_ignores_out_of_range() {
    let mut b = Budget::new();
    b.add_transaction(tx(1, "a", "d", ""));
    b.add_transaction(tx(2, "b", "d", ""));
    b.add_transaction(tx(3, "c", "d", ""));
    b.remove_transaction(7);
    assert_eq!(b.transactions.len(), 3);
    b.remove_transaction(1);
    assert_eq!(b.transactions.len(), 2);
    assert_eq!(b.transactions[0].amount, 1);
    assert_eq!(b.transactions[1].amount, 3);
}

#[test]
fn cursor_moves_clamp_to_ledger() {
    let mut app = App::new();
    for i in 0..3i64 {
        app.budget.add_transaction(tx(i, "c", "2025-01-01", ""));
    }
    assert_eq!(app.selected_transaction, None);
    assert!(app.handle_input(Key::Down));
    assert_eq!(app.selected_transaction, Some(0));
    assert!(app.handle_input(Key::Down));
    assert!(app.handle_input(Key::Down));
    assert_eq!(app.selected_transaction, Some(2));
    assert!(app.handle_input(Key::Down));
    assert_eq!(app.selected_transaction, Some(2));
    assert!(app.handle_input(Key::Up));
    assert_eq!(app.selected_transaction, Some(1));
    assert!(app.handle_input(Key::Up));
    assert!(app.handle_input(Key::Up));
    assert_eq!(app.selected_transaction, Some(0));
}

#[test]
fn up_selects_first_when_nothing_selected() {
    let mut app = App::new();
    app.budget.add_transaction(tx(1, "c", "2025-01-01", ""));
    assert!(app.handle_input(Key::Up));
    assert_eq!(app.selected_transaction, Some(0));
}

#[test]
fn moves_on_empty_ledger_keep_cursor_none() {
    let mut app = App::new();
    assert!(app.handle_input(Key::Down));
    assert_eq!(app.selected_transaction, None);
    assert!(app.handle_input(Key::Up));
    assert_eq!(app.selected_transaction, None);
}

#[test]
fn delete_on_empty_ledger_is_a_no_op() {
    let mut app = App::new();
    assert!(app.handle_input(Key::Char('d')));
    assert_eq!(app.selected_transaction, None);
    assert_eq!(app.budget.transactions.len(), 0);
}

#[test]
fn delete_selected_removes_exactly_that_entry() {
    let mut app = App::new();
    for i in 0..3i64 {
        app.budget.add_transaction(tx(i * 100, "c", "2025-01-01", ""));
    }
    app.handle_input(Key::Down);
    app.handle_input(Key::Down); // cursor at index 1
    assert!(app.handle_input(Key::Char('d')));
    assert_eq!(app.budget.transactions.len(), 2);
    assert_eq!(app.budget.transactions[0].amount, 0);
    assert_eq!(app.budget.transactions[1].amount, 200);
    // the cursor stays on the entry that shifted into the removed slot
    assert_eq!(app.selected_transaction, Some(1));
}

#[test]
fn deleting_the_last_entry_falls_back_to_the_new_last() {
    let mut app = App::new();
    for i in 0..3i64 {
        app.budget.add_transaction(tx(i, "c", "2025-01-01", ""));
    }
    app.handle_input(Key::Down);
    app.handle_input(Key::Down);
    app.handle_input(Key::Down); // cursor at index 2, the last entry
    assert!(app.handle_input(Key::Char('d')));
    assert_eq!(app.budget.transactions.len(), 2);
    assert_eq!(app.selected_transaction, Some(1));
}

#[test]
fn deleting_last_entry_clears_cursor() {
    let mut app = App::new();
    app.budget.add_transaction(tx(1, "c", "2025-01-01", ""));
    app.handle_input(Key::Down);
    assert!(app.handle_input(Key::Char('d')));
    assert_eq!(app.budget.transactions.len(), 0);
    assert_eq!(app.selected_transaction, None);
}

#[test]
fn escape_while_browsing_requests_exit() {
    let mut app = App::new();
    assert!(!app.handle_input(Key::Esc));
    assert_eq!(app.budget.transactions.len(), 0);
}

#[test]
fn start_entry_clears_drafts_and_moves_focus() {
    let mut app = App::new();
    assert!(app.handle_input(Key::Char('a')));
    assert!(matches!(app.focus_mode, FocusMode::Input));
    assert_eq!(app.input_field, 0);
    assert_eq!(app.input_amount, "");
}

#[test]
fn tab_cycles_through_the_four_fields() {
    let mut app = App::new();
    app.handle_input(Key::Char('a'));
    for expected in [1usize, 2, 3, 0, 1] {
        app.handle_input(Key::Tab);
        assert_eq!(app.input_field, expected);
    }
    app.handle_input(Key::BackTab);
    assert_eq!(app.input_field, 0);
    app.handle_input(Key::BackTab);
    assert_eq!(app.input_field, 3);
}

#[test]
fn typing_and_backspace_edit_the_active_field() {
    let mut app = App::new();
    app.handle_input(Key::Char('a'));
    type_text(&mut app, "12x");
    assert_eq!(app.input_amount, "12x");
    app.handle_input(Key::Backspace);
    assert_eq!(app.input_amount, "12");
    app.handle_input(Key::Tab);
    type_text(&mut app, "Food");
    assert_eq!(app.input_category, "Food");
    assert_eq!(app.input_amount, "12");
    // backspace on an empty field is a no-op
    app.handle_input(Key::Tab);
    app.handle_input(Key::Backspace);
    assert_eq!(app.input_date, "");
}

#[test]
fn cancel_clears_drafts_without_touching_the_ledger() {
    let mut app = App::new();
    app.handle_input(Key::Char('a'));
    type_text(&mut app, "99");
    assert!(app.handle_input(Key::Esc));
    assert!(matches!(app.focus_mode, FocusMode::Transactions));
    assert_eq!(app.input_amount, "");
    assert_eq!(app.budget.transactions.len(), 0);
}

#[test]
fn commit_scenario_with_empty_date_uses_today() {
    let mut app = App::new();
    app.handle_input(Key::Char('a'));
    type_text(&mut app, "-50");
    app.handle_input(Key::Tab);
    type_text(&mut app, "Groceries");
    app.handle_input(Key::Tab);
    // date left empty
    app.handle_input(Key::Tab);
    type_text(&mut app, "milk");
    assert!(app.handle_input(Key::Enter));
    assert!(matches!(app.focus_mode, FocusMode::Transactions));
    assert_eq!(app.budget.transactions.len(), 1);
    let t = &app.budget.transactions[0];
    assert_eq!(t.amount, -5000);
    assert_eq!(t.category, "Groceries");
    assert_eq!(t.description, "milk");
    let today = chrono::Local::now().format("%Y-%m-%d").to_string();
    assert_eq!(t.date, today);
    assert_eq!(app.budget.total_balance(), -5000);
    assert_eq!(app.input_amount, "");
}

#[test]
fn commit_keeps_nonempty_date_verbatim() {
    let mut app = App::new();
    app.handle_input(Key::Char('a'));
    type_text(&mut app, "7");
    app.handle_input(Key::Tab);
    app.handle_input(Key::Tab);
    type_text(&mut app, "month 13: 2026-13-40");
    app.commit_entry("2026-01-01".to_string());
    assert_eq!(app.budget.transactions[0].date, "month 13: 2026-13-40");
}

#[test]
fn commit_with_unparsable_amount_stores_zero() {
    let mut app = App::new();
    app.handle_input(Key::Char('a'));
    type_text(&mut app, "abc");
    assert!(app.handle_input(Key::Enter));
    assert_eq!(app.budget.transactions.len(), 1);
    assert_eq!(app.budget.transactions[0].amount, 0);
    assert_eq!(app.budget.total_balance(), 0);
}

#[test]
fn income_then_expense_gives_total_and_full_share() {
    let mut app = App::new();
    app.handle_input(Key::Char('a'));
    type_text(&mut app, "200");
    app.handle_input(Key::Tab);
    type_text(&mut app, "Salary");
    assert!(app.handle_input(Key::Enter));
    app.handle_input(Key::Char('a'));
    type_text(&mut app, "-50");
    app.handle_input(Key::Tab);
    type_text(&mut app, "Groceries");
    assert!(app.handle_input(Key::Enter));
    assert_eq!(app.budget.total_balance(), 15000);
    let pct = as_map(&category_percentages(&app.budget));
    assert_eq!(pct.len(), 1);
    assert_eq!(pct["Groceries"], 100);
}

#[test]
fn percentages_sum_near_hundred() {
    let mut b = Budget::new();
    b.add_transaction(tx(-100, "a", "2025-01-01", ""));
    b.add_transaction(tx(-100, "b", "2025-01-01", ""));
    b.add_transaction(tx(-100, "c", "2025-01-01", ""));
    let pct = as_map(&category_percentages(&b));
    assert_eq!(pct.len(), 3);
    assert_eq!(pct["a"], 33);
    let sum: u64 = pct.values().sum();
    assert!(sum >= 100 - 3 && sum <= 100 + 3);
}

#[test]
fn percentages_empty_without_spending() {
    let mut b = Budget::new();
    b.add_transaction(tx(500, "Salary", "2025-01-01", ""));
    assert!(category_percentages(&b).is_empty());
    let sum: u64 = category_percentages(&b).iter().map(|p| p.1).sum();
    assert_eq!(sum, 0);
}

#[test]
fn percentage_rounds_to_nearest() {
    let mut b = Budget::new();
    b.add_transaction(tx(-200, "a", "2025-01-01", ""));
    b.add_transaction(tx(-100, "b", "2025-01-01", ""));
    let pct = as_map(&category_percentages(&b));
    assert_eq!(pct["a"], 67); // 66.67 rounds up
    assert_eq!(pct["b"], 33); // 33.33 rounds down
}

#[test]
fn month_of_reads_the_middle_field() {
    assert_eq!(month_of("2025-02-02"), Some("02".to_string()));
    assert_eq!(month_of("2025-12"), Some("12".to_string()));
    assert_eq!(month_of("nodate"), None);
    assert_eq!(month_of(""), None);
    assert_eq!(month_of("2025-"), Some("".to_string()));
    assert_eq!(month_of("-07-"), Some("07".to_string()));
}

#[test]
fn monthly_spending_groups_by_month_and_skips_dateless() {
    let mut b = Budget::new();
    b.add_transaction(tx(20000, "Salary", "2025-01-15", ""));
    b.add_transaction(tx(-5000, "Groceries", "2025-01-20", ""));
    b.add_transaction(tx(-3000, "Rent", "2025-02-01", ""));
    b.add_transaction(tx(1000, "Odd", "nodate", ""));
    let got = as_map(&monthly_spending(&b));
    assert_eq!(got.len(), 2);
    assert_eq!(got["01"], 25000);
    assert_eq!(got["02"], 3000);
}

#[test]
fn save_writes_an_array_of_records() {
    assert_eq!(save_transactions(&Vec::new()), "[]");
    let one = vec![tx(-5000, "Groceries", "2025-02-02", "milk")];
    assert_eq!(
        save_transactions(&one),
        "[{\"amount\":-50.00,\"category\":\"Groceries\",\"date\":\"2025-02-02\",\"description\":\"milk\"}]"
    );
}

#[test]
fn save_then_load_restores_every_field() {
    let original = vec![
        tx(-5000, "Groceries", "2025-02-02", "weekly food"),
        tx(20000, "Salary", "2025-02-01", ""),
        tx(0, "", "", ""),
        tx(-1, "quo\"te\\slash", "2025-03-03", "caf\u{e9} \u{1F600}"),
        tx(1_000_000_000_000_000, "big", "2026-01-01", "limit"),
    ];
    let text = save_transactions(&original);
    let loaded = load_transactions(&text);
    assert_eq!(loaded.len(), original.len());
    for (a, b) in original.iter().zip(loaded.iter()) {
        assert_eq!(a.amount, b.amount);
        assert_eq!(a.category, b.category);
        assert_eq!(a.date, b.date);
        assert_eq!(a.description, b.description);
    }
}

#[test]
fn load_falls_back_to_empty_on_damaged_text() {
    assert_eq!(load_transactions("").len(), 0);
    assert_eq!(load_transactions("[").len(), 0);
    assert_eq!(load_transactions("hello").len(), 0);
    assert_eq!(load_transactions("[{\"amount\":}]").len(), 0);
    assert_eq!(load_transactions("[]").len(), 0);
    // trailing garbage after a well-formed array is rejected too
    let text = save_transactions(&vec![tx(1, "a", "b", "c")]);
    assert_eq!(load_transactions(&format!("{}x", text)).len(), 0);
}

#[test]
fn app_state_starts_on_the_transactions_tab() {
    let s = AppState::new();
    assert!(matches!(s.selected_tab, Tab::Transactions));
    assert_eq!(s.selected_transaction, None);
    assert_eq!(s.current_input_field, 0);
    assert_eq!(s.budget.transactions.len(), 0);
    assert_eq!(s.input_amount, "");
    assert_eq!(s.input_category, "");
    assert_eq!(s.input_date, "");
    assert_eq!(s.input_description, "");
}

#[test]
fn other_keys_are_ignored_in_both_modes() {
    let mut app = App::new();
    app.budget.add_transaction(tx(1, "c", "2025-01-01", ""));
    assert!(app.handle_input(Key::Other));
    assert!(app.handle_input(Key::Backspace));
    assert_eq!(app.budget.transactions.len(), 1);
    app.handle_input(Key::Char('a'));
    assert!(app.handle_input(Key::Other));
    assert!(app.handle_input(Key::Up));
    assert!(app.handle_input(Key::Down));
    assert_eq!(app.input_amount, "");
    assert!(matches!(app.focus_mode, FocusMode::Input));
}
