use food_ledger::index::{all_of, first_of};

fn index(entries: &[(i64, &str)]) -> Vec<(i64, String)> {
    entries.iter().map(|(id, key)| (*id, key.to_string())).collect()
}

#[test]
fn first_of_finds_the_key() {
    let names = index(&[(2, "tea"), (1, "rice"), (3, "soto")]);
    assert_eq!(first_of(&names, "rice"), Some(1));
    assert_eq!(first_of(&names, "tea"), Some(2));
    assert_eq!(first_of(&names, "soto"), Some(3));
}

#[test]
fn first_of_finds_nothing_for_another_key() {
    let names = index(&[(2, "tea"), (1, "rice")]);
    assert_eq!(first_of(&names, "Rice"), None);
    assert_eq!(first_of(&names, "ric"), None);
    assert_eq!(first_of(&names, ""), None);
    assert_eq!(first_of(&index(&[]), "rice"), None);
}

#[test]
fn first_of_takes_the_least_id_among_several() {
    let names = index(&[(9, "rice"), (4, "rice"), (6, "rice"), (1, "tea")]);
    assert_eq!(first_of(&names, "rice"), Some(4));
    let names = index(&[(-9, "rice"), (4, "rice")]);
    assert_eq!(first_of(&names, "rice"), Some(-9));
}

#[test]
fn all_of_finds_every_id_with_the_key() {
    let names = index(&[(9, "rice"), (4, "rice"), (1, "tea"), (6, "rice")]);
    let mut ids = all_of(&names, "rice");
    ids.sort();
    assert_eq!(ids, vec![4, 6, 9]);
    assert_eq!(all_of(&names, "tea"), vec![1]);
    assert_eq!(all_of(&names, "soto"), vec![]);
}
