use food_ledger::{
    execute, parse_foods, Command, Field, Food, Foods, IntFault, ParseError, Purchase, Receipt,
    Report, Skipped, Upsert,
};

fn food(id: i64, name: &str, stock: i64, price: i64) -> Food {
    Food { id, name: name.to_string(), stock, price }
}

fn ledger(items: Vec<Food>) -> Foods {
    let mut foods = Foods::new();
    for item in items {
        foods.add(item);
    }
    foods
}

fn add(name: &str, stock: i64, price: i64) -> Command {
    Command::Add { name: name.to_string(), stock, price }
}

fn buy(name: &str, stock: i64) -> Command {
    Command::Buy { name: name.to_string(), stock }
}

fn delete(name: &str) -> Command {
    Command::Delete { name: name.to_string() }
}

fn read(text: &str) -> Vec<Food> {
    parse_foods(text.to_string(), false).foods.into_vec()
}

#[test]
fn upsert_adds_a_new_name_under_the_next_id() {
    let mut foods = Foods::new();
    assert_eq!(foods.upsert("Rice", 100, 5000), Upsert::Added(1));
    assert_eq!(foods.upsert("Tea", 50, 2000), Upsert::Added(2));
    assert_eq!(foods.into_vec(), vec![food(1, "Rice", 100, 5000), food(2, "Tea", 50, 2000)]);
}

#[test]
fn upsert_overwrites_a_name_alike_under_its_id() {
    let mut foods = ledger(vec![food(1, "Rice", 100, 5000), food(2, "Tea", 50, 2000)]);
    assert_eq!(foods.upsert("RICE", 7, 9), Upsert::Updated(1));
    assert_eq!(foods.into_vec(), vec![food(1, "RICE", 7, 9), food(2, "Tea", 50, 2000)]);
}

#[test]
fn upsert_goes_on_from_the_greatest_id() {
    let mut foods = ledger(vec![food(4, "Rice", 100, 5000), food(9, "Tea", 50, 2000)]);
    assert_eq!(foods.upsert("Soto", 1, 2), Upsert::Added(10));
}

#[test]
fn upsert_stops_where_no_id_is_left() {
    let mut foods = ledger(vec![food(i64::MAX, "Rice", 100, 5000)]);
    assert_eq!(foods.upsert("Tea", 1, 2), Upsert::Exhausted);
    assert_eq!(foods.upsert("rice", 1, 2), Upsert::Updated(i64::MAX));
    assert_eq!(foods.into_vec(), vec![food(i64::MAX, "rice", 1, 2)]);
}

#[test]
fn adds_give_the_ids_from_one_without_gap() {
    let mut foods = Foods::new();
    let names = vec!["Rice", "Tea", "rice", "Soto", "TEA", "Sate", "Bakso", "soto", "Kopi"];
    for (i, name) in names.iter().enumerate() {
        foods.upsert(name, i as i64, 1000);
    }
    let ids: Vec<i64> = foods.into_vec().iter().map(|f| f.id).collect();
    assert_eq!(ids, vec![1, 2, 3, 4, 5, 6]);
}

#[test]
fn purchase_sells_what_is_there() {
    let mut foods = ledger(vec![food(1, "Rice", 100, 5000)]);
    assert_eq!(
        foods.purchase("Rice", 30),
        Purchase::Sold(Receipt {
            name: "Rice".to_string(),
            quantity: 30,
            total: 150000,
            remaining: 70
        })
    );
    assert_eq!(foods.into_vec(), vec![food(1, "Rice", 70, 5000)]);
}

#[test]
fn purchase_can_empty_the_stock() {
    let mut foods = ledger(vec![food(1, "Rice", 100, 5000)]);
    assert_eq!(
        foods.purchase("Rice", 100),
        Purchase::Sold(Receipt {
            name: "Rice".to_string(),
            quantity: 100,
            total: 500000,
            remaining: 0
        })
    );
}

#[test]
fn purchase_of_too_much_is_refused() {
    let mut foods = ledger(vec![food(1, "Rice", 100, 5000)]);
    assert_eq!(foods.purchase("Rice", 101), Purchase::Refused(ParseError::StockFood));
    assert_eq!(foods.into_vec(), vec![food(1, "Rice", 100, 5000)]);
}

#[test]
fn purchase_of_an_unknown_name_is_refused() {
    let mut foods = ledger(vec![food(1, "Rice", 100, 5000)]);
    assert_eq!(foods.purchase("Tea", 1), Purchase::Refused(ParseError::FoundFood));
    assert_eq!(foods.purchase("rice", 1), Purchase::Refused(ParseError::FoundFood));
    assert_eq!(foods.into_vec(), vec![food(1, "Rice", 100, 5000)]);
}

#[test]
fn purchase_that_leaves_the_range_changes_nothing() {
    let mut foods = ledger(vec![food(1, "Rice", i64::MAX, 5000)]);
    assert_eq!(foods.purchase("Rice", -1), Purchase::OutOfRange);
    assert_eq!(foods.into_vec(), vec![food(1, "Rice", i64::MAX, 5000)]);
}

#[test]
fn delete_closes_the_gap() {
    let mut foods = ledger(vec![
        food(1, "Rice", 100, 5000),
        food(2, "Tea", 50, 2000),
        food(3, "Soto", 1, 12000),
        food(4, "Sate", 9, 20000),
    ]);
    assert_eq!(foods.delete("tea"), Ok(2));
    assert_eq!(
        foods.into_vec(),
        vec![food(1, "Rice", 100, 5000), food(2, "Soto", 1, 12000), food(3, "Sate", 9, 20000)]
    );
}

#[test]
fn delete_of_the_last_item_moves_nothing() {
    let mut foods = ledger(vec![food(1, "Rice", 100, 5000), food(2, "Tea", 50, 2000)]);
    assert_eq!(foods.delete("Tea"), Ok(2));
    assert_eq!(foods.into_vec(), vec![food(1, "Rice", 100, 5000)]);
}

#[test]
fn delete_of_an_unknown_name_changes_nothing() {
    let mut foods = ledger(vec![food(1, "Rice", 100, 5000)]);
    assert_eq!(foods.delete("Tea"), Err(ParseError::FoodNotFound("Tea".to_string())));
    assert_eq!(foods.into_vec(), vec![food(1, "Rice", 100, 5000)]);
}

#[test]
fn add_to_an_empty_file() {
    let outcome = execute(String::new(), add("Rice", 100, 5000), false);
    assert_eq!(outcome.report, Report::Upserted(Upsert::Added(1)));
    assert_eq!(outcome.persist, Some("id,name,stock,price\n1,Rice,100,5000\n".to_string()));
    assert_eq!(read(&outcome.persist.unwrap()), vec![food(1, "Rice", 100, 5000)]);
}

#[test]
fn add_updates_an_item_that_is_there() {
    let text = "id,name,stock,price\n1,Rice,100,5000\n2,Tea,50,2000\n";
    let outcome = execute(text.to_string(), add("tea", 60, 2500), false);
    assert_eq!(outcome.report, Report::Upserted(Upsert::Updated(2)));
    assert_eq!(
        outcome.persist,
        Some("id,name,stock,price\n1,Rice,100,5000\n2,tea,60,2500\n".to_string())
    );
}

#[test]
fn add_writes_the_file_even_where_nothing_changed() {
    let text = "id,name,stock,price\n1,Rice,100,5000\n";
    let outcome = execute(text.to_string(), add("Rice", 100, 5000), false);
    assert_eq!(outcome.report, Report::Upserted(Upsert::Updated(1)));
    assert_eq!(outcome.persist, Some(text.to_string()));
}

#[test]
fn delete_the_first_of_two() {
    let text = "id,name,stock,price\n1,Rice,100,5000\n2,Tea,50,2000\n";
    let outcome = execute(text.to_string(), delete("Rice"), false);
    assert_eq!(outcome.report, Report::Deleted(Ok(1)));
    assert_eq!(outcome.persist, Some("id,name,stock,price\n1,Tea,50,2000\n".to_string()));
    assert_eq!(read(&outcome.persist.unwrap()), vec![food(1, "Tea", 50, 2000)]);
}

#[test]
fn delete_an_unknown_name_writes_nothing() {
    let text = "id,name,stock,price\n1,Rice,100,5000\n";
    let outcome = execute(text.to_string(), delete("Tea"), false);
    assert_eq!(
        outcome.report,
        Report::Deleted(Err(ParseError::FoodNotFound("Tea".to_string())))
    );
    assert_eq!(outcome.persist, None);
}

#[test]
fn buy_thirty_of_a_hundred() {
    let text = "id,name,stock,price\n1,Rice,100,5000\n";
    let outcome = execute(text.to_string(), buy("Rice", 30), false);
    assert_eq!(
        outcome.report,
        Report::Purchased(Purchase::Sold(Receipt {
            name: "Rice".to_string(),
            quantity: 30,
            total: 150000,
            remaining: 70
        }))
    );
    assert_eq!(outcome.persist, Some("id,name,stock,price\n1,Rice,70,5000\n".to_string()));
    assert_eq!(read(&outcome.persist.unwrap()), vec![food(1, "Rice", 70, 5000)]);
}

#[test]
fn buy_more_than_there_is_writes_nothing() {
    let text = "id,name,stock,price\n1,Rice,100,5000\n";
    let outcome = execute(text.to_string(), buy("Rice", 101), false);
    assert_eq!(outcome.report, Report::Purchased(Purchase::Refused(ParseError::StockFood)));
    assert_eq!(outcome.persist, None);
}

#[test]
fn buy_an_unknown_name_writes_nothing() {
    let text = "id,name,stock,price\n1,Rice,100,5000\n";
    let outcome = execute(text.to_string(), buy("Tea", 1), false);
    assert_eq!(outcome.report, Report::Purchased(Purchase::Refused(ParseError::FoundFood)));
    assert_eq!(outcome.persist, None);
    let outcome = execute(text.to_string(), buy("rice", 1), false);
    assert_eq!(outcome.report, Report::Purchased(Purchase::Refused(ParseError::FoundFood)));
    assert_eq!(outcome.persist, None);
}

#[test]
fn buy_out_of_range_writes_nothing() {
    let text = "1,Rice,9223372036854775807,1\n";
    let outcome = execute(text.to_string(), buy("Rice", -1), false);
    assert_eq!(outcome.report, Report::Purchased(Purchase::OutOfRange));
    assert_eq!(outcome.persist, None);
}

#[test]
fn add_without_an_id_left_writes_nothing() {
    let text = "9223372036854775807,Rice,1,1\n";
    let outcome = execute(text.to_string(), add("Tea", 1, 1), false);
    assert_eq!(outcome.report, Report::Upserted(Upsert::Exhausted));
    assert_eq!(outcome.persist, None);
}

#[test]
fn list_shows_the_items_by_id_and_writes_nothing() {
    let text = "2,Tea,50,2000\n1,Rice,100,5000\n";
    let outcome = execute(text.to_string(), Command::List, false);
    assert_eq!(
        outcome.report,
        Report::Listed("id,name,stock,price\n1,Rice,100,5000\n2,Tea,50,2000\n".to_string())
    );
    assert_eq!(outcome.persist, None);
}

#[test]
fn list_of_an_empty_file() {
    let outcome = execute(String::new(), Command::List, true);
    assert_eq!(outcome.report, Report::Listed("id,name,stock,price\n".to_string()));
    assert_eq!(outcome.persist, None);
    assert_eq!(outcome.skipped, vec![]);
}

#[test]
fn adds_then_list_shows_the_ids_from_one() {
    let mut text = String::new();
    for name in ["Rice", "Tea", "Soto", "tea", "Sate"] {
        let outcome = execute(text, add(name, 10, 1000), false);
        text = outcome.persist.unwrap();
    }
    let outcome = execute(text, Command::List, false);
    assert_eq!(
        outcome.report,
        Report::Listed(
            "id,name,stock,price\n1,Rice,10,1000\n2,tea,10,1000\n3,Soto,10,1000\n4,Sate,10,1000\n"
                .to_string()
        )
    );
}

#[test]
fn a_line_with_an_empty_name_is_reported_and_left_out() {
    let outcome = execute("2,,10,100".to_string(), Command::List, true);
    assert_eq!(
        outcome.skipped,
        vec![Skipped {
            line: 1,
            error: ParseError::MissingField(Field::Name),
            text: "2,,10,100".to_string(),
        }]
    );
    assert_eq!(outcome.report, Report::Listed("id,name,stock,price\n".to_string()));
}

#[test]
fn a_command_that_writes_drops_the_lines_passed_over() {
    let text = "id,name,stock,price\n1,Rice,100,5000\noops\n2,,10,100\n";
    let outcome = execute(text.to_string(), add("Tea", 50, 2000), true);
    assert_eq!(
        outcome.skipped,
        vec![
            Skipped {
                line: 3,
                error: ParseError::InvalidId(Field::Id, IntFault::InvalidDigit),
                text: "oops".to_string(),
            },
            Skipped {
                line: 4,
                error: ParseError::MissingField(Field::Name),
                text: "2,,10,100".to_string(),
            },
        ]
    );
    assert_eq!(
        outcome.persist,
        Some("id,name,stock,price\n1,Rice,100,5000\n2,Tea,50,2000\n".to_string())
    );
}

#[test]
fn nothing_is_reported_unless_verbose() {
    let outcome = execute("2,,10,100\nx\n".to_string(), Command::List, false);
    assert_eq!(outcome.skipped, vec![]);
}
