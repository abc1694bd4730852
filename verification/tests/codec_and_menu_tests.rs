use todo_assistant::codec;
use todo_assistant::menu::{MenuAction, MenuItem};
use todo_assistant::todo_item::{TodoItem, TodoItemSerializable};

#[test]
fn decode_zero_bytes_is_empty_store() {
    let (items, next_id) = codec::decode("").unwrap();
    assert_eq!(0, items.len());
    assert_eq!(0, next_id);
}

#[test]
fn decode_rejects_malformed_content() {
    let error = codec::decode("{\"store\":[").err().unwrap();
    assert_eq!(
        "Error reading persistence file. Data is likely corrupted.",
        &error.message
    );
}

#[test]
fn encode_then_decode_reproduces_records() {
    let a = TodoItem::new(String::from("2024-06-30 Water plants"), 0).unwrap();
    let mut b = TodoItem::new(String::from("2024-07-01 Call back"), 1).unwrap();
    b.mark_as_done();
    let items = vec![a, b];

    let doc = codec::encode(&items, 2);
    let (decoded, next_id) = codec::decode(doc.as_str()).unwrap();

    assert_eq!(2, next_id);
    assert_eq!(2, decoded.len());
    assert_eq!(0, decoded[0].id);
    assert_eq!("Water plants", decoded[0].title);
    assert_eq!(2024, decoded[0].due_date.year);
    assert_eq!(6, decoded[0].due_date.month);
    assert_eq!(30, decoded[0].due_date.day);
    assert!(!decoded[0].complete);
    assert_eq!(1, decoded[1].id);
    assert!(decoded[1].complete);
}

#[test]
fn calendar_invalid_dates_are_validation_errors() {
    // Shape-valid digits, but no such day on the calendar.
    assert!(TodoItem::new(String::from("2021-02-29 Leap"), 0).is_err());
    assert!(TodoItem::new(String::from("2022-13-01 Month"), 0).is_err());
    assert!(TodoItem::new(String::from("2022-04-31 Day"), 0).is_err());
    // The same shapes on existing days are accepted.
    assert!(TodoItem::new(String::from("2020-02-29 Leap"), 0).is_ok());
    assert!(TodoItem::new(String::from("2022-12-01 Month"), 0).is_ok());
    assert!(TodoItem::new(String::from("2022-03-31 Day"), 0).is_ok());
}

#[test]
fn title_length_bounds() {
    let fifty = String::from("2022-01-01 ") + String::from("0").repeat(50).as_str();
    assert!(TodoItem::new(fifty, 0).is_ok());

    let fifty_one = String::from("2022-01-01 ") + String::from("0").repeat(51).as_str();
    let error = TodoItem::new(fifty_one, 0).err().unwrap();
    assert_eq!("Invalid format for new Todo item.", &error.message);
}

#[test]
fn deserialize_reads_iso_date() {
    let dto = TodoItemSerializable {
        id: 3,
        title: String::from("Stored"),
        due_date: String::from("2023-11-05"),
        complete: true,
    };
    let item = TodoItem::deserialize(dto).unwrap();
    assert_eq!(3, item.id);
    assert_eq!("Stored", item.title);
    assert_eq!(2023, item.due_date.year);
    assert_eq!(11, item.due_date.month);
    assert_eq!(5, item.due_date.day);
    assert!(item.complete);
}

#[test]
fn deserialize_rejects_bad_date() {
    let dto = TodoItemSerializable {
        id: 3,
        title: String::from("Stored"),
        due_date: String::from("2023-13-05"),
        complete: false,
    };
    let error = TodoItem::deserialize(dto).err().unwrap();
    assert_eq!(
        "Error reading persistence file. Data is likely corrupted.",
        &error.message
    );
}

#[test]
fn serializable_round_trip_preserves_record() {
    let item = TodoItem::new(String::from("2024-02-29 Check dates"), 9).unwrap();
    let dto = item.to_serializable();
    assert_eq!("2024-02-29", dto.due_date);

    let back = TodoItem::deserialize(dto).unwrap();
    assert_eq!(item.id, back.id);
    assert_eq!(item.title, back.title);
    assert_eq!(item.due_date, back.due_date);
    assert_eq!(item.complete, back.complete);
}

#[test]
fn menu_selection_greenpath() {
    let item = MenuItem::parse_user_selection(&String::from("i\n")).unwrap();
    assert_eq!(MenuAction::ListIncompleteItems, item.action);
    assert_eq!('i', item.selection);

    assert_eq!(
        MenuAction::ListAllItems,
        MenuItem::parse_user_selection(&String::from(" a ")).unwrap().action
    );
    assert_eq!(
        MenuAction::ListCompletedItems,
        MenuItem::parse_user_selection(&String::from("h")).unwrap().action
    );
    assert_eq!(
        MenuAction::CreateItem,
        MenuItem::parse_user_selection(&String::from("n")).unwrap().action
    );
    assert_eq!(
        MenuAction::MarkItemComplete,
        MenuItem::parse_user_selection(&String::from("c")).unwrap().action
    );
    assert_eq!(
        MenuAction::Quit,
        MenuItem::parse_user_selection(&String::from("q")).unwrap().action
    );
}

#[test]
fn menu_selection_must_be_single_character() {
    let error = MenuItem::parse_user_selection(&String::from("ab")).err().unwrap();
    assert_eq!("Input must be a single character.", &error.message);

    let error = MenuItem::parse_user_selection(&String::from("")).err().unwrap();
    assert_eq!("Input must be a single character.", &error.message);
}

#[test]
fn menu_selection_must_name_an_action() {
    let error = MenuItem::parse_user_selection(&String::from("z")).err().unwrap();
    assert_eq!("A valid menu action must be selected.", &error.message);
}
