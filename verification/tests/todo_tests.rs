use chrono::NaiveDate;
use todo_assistant::todo_error::TodoError;
use todo_assistant::todo_item::TodoItem;

#[test]
fn new_greenpath() {
    let error = TodoError::new(
        String::from("message"),
        Box::new(TodoError::new_from_msg(String::from("source_message"))),
    );

    assert_eq!("message", error.message);
    assert_eq!("source_message", error.root().as_ref().unwrap().message);
}

#[test]
fn todo_item_greenpath() {
    let user_input = "2021-01-01 First Todo";
    let result = TodoItem::new(String::from(user_input), 0).unwrap();

    let expected_date = NaiveDate::parse_from_str("2021-01-01", "%Y-%m-%d").unwrap();
    assert_eq!(expected_date.to_string(), result.to_serializable().due_date);
    assert_eq!("First Todo", result.title);
    assert!(!result.complete);
}

#[test]
fn todo_item_greenpath_whitepsace_around_input() {
    let user_input = "    2022-01-01 First Todo    ";
    let result = TodoItem::new(String::from(user_input), 0).unwrap();

    let expected_date = NaiveDate::parse_from_str("2022-01-01", "%Y-%m-%d").unwrap();
    assert_eq!(expected_date.to_string(), result.to_serializable().due_date);
    assert_eq!("First Todo", result.title);
    assert!(!result.complete);
}

#[test]
fn todo_item_bad_input() {
    let user_input = "BAD INPUT";
    let error = TodoItem::new(String::from(user_input), 0).err().unwrap();

    assert_eq!("Invalid format for new Todo item.", &error.message);
}

#[test]
fn todo_item_bad_input_too_long() {
    let user_input = String::from("2022-01-01 Todo Item") + String::from("0").repeat(50).as_str();
    let error = TodoItem::new(String::from(user_input), 0).err().unwrap();

    assert_eq!("Invalid format for new Todo item.", &error.message);
}
