use todo_assistant::todo_store::TodoStore;

fn empty_store() -> TodoStore {
    TodoStore::new_from_persistence("").unwrap()
}

#[test]
fn create_assigns_id_zero_and_parsed_fields() {
    let mut store = empty_store();
    store
        .create_new_todo(String::from("2021-01-01 First Todo"))
        .unwrap();

    let all = store.list_all_todos();
    assert_eq!(1, all.len());
    assert_eq!(0, all[0].id);
    assert_eq!("First Todo", all[0].title);
    assert_eq!(2021, all[0].due_date.year);
    assert_eq!(1, all[0].due_date.month);
    assert_eq!(1, all[0].due_date.day);
    assert!(!all[0].complete);
}

#[test]
fn failed_create_leaves_counter_unchanged() {
    let mut store = empty_store();
    let error = store.create_new_todo(String::from("BAD INPUT")).err().unwrap();
    assert_eq!("Invalid format for new Todo item.", &error.message);
    assert_eq!(0, store.list_all_todos().len());

    store
        .create_new_todo(String::from("2021-01-01 First Todo"))
        .unwrap();
    let all = store.list_all_todos();
    assert_eq!(0, all[0].id);
}

#[test]
fn ids_strictly_increase_across_failures() {
    let mut store = empty_store();
    store.create_new_todo(String::from("2021-01-01 One")).unwrap();
    assert!(store.create_new_todo(String::from("nonsense")).is_err());
    store.create_new_todo(String::from("2021-01-02 Two")).unwrap();
    assert!(store.create_new_todo(String::from("")).is_err());
    store.create_new_todo(String::from("2021-01-03 Three")).unwrap();

    let mut ids: Vec<usize> = store.list_all_todos().iter().map(|it| it.id).collect();
    ids.sort();
    assert_eq!(vec![0, 1, 2], ids);
}

#[test]
fn list_is_sorted_by_due_date() {
    let mut store = empty_store();
    store.create_new_todo(String::from("2022-02-02 Later")).unwrap();
    store.create_new_todo(String::from("2022-02-01 Earlier")).unwrap();

    let all = store.list_all_todos();
    assert_eq!(2, all.len());
    assert_eq!("Earlier", all[0].title);
    assert_eq!("Later", all[1].title);
}

#[test]
fn equal_due_dates_keep_insertion_order() {
    let mut store = empty_store();
    store.create_new_todo(String::from("2022-02-01 A")).unwrap();
    store.create_new_todo(String::from("2022-02-01 B")).unwrap();
    store.create_new_todo(String::from("2022-02-01 C")).unwrap();

    let all = store.list_all_todos();
    assert_eq!(3, all.len());
    assert_eq!("A", all[0].title);
    assert_eq!("B", all[1].title);
    assert_eq!("C", all[2].title);
}

#[test]
fn mark_as_done_moves_record_to_history() {
    let mut store = empty_store();
    store.create_new_todo(String::from("2021-05-05 Task")).unwrap();
    store.mark_as_done(0).unwrap();

    assert_eq!(0, store.list_incomplete_todos().len());
    let history = store.list_history();
    assert_eq!(1, history.len());
    assert!(history[0].complete);
    assert_eq!(1, store.list_all_todos().len());
}

#[test]
fn mark_as_done_twice_reports_not_found() {
    let mut store = empty_store();
    store.create_new_todo(String::from("2021-05-05 Task")).unwrap();
    store.mark_as_done(0).unwrap();

    let error = store.mark_as_done(0).err().unwrap();
    assert_eq!("Please select a valid ID.", &error.message);
    let history = store.list_history();
    assert_eq!(1, history.len());
    assert!(history[0].complete);
}

#[test]
fn mark_as_done_unknown_id_reports_not_found() {
    let mut store = empty_store();
    store.create_new_todo(String::from("2021-05-05 Task")).unwrap();

    let error = store.mark_as_done(7).err().unwrap();
    assert_eq!("Please select a valid ID.", &error.message);
    assert_eq!(1, store.list_incomplete_todos().len());
}

#[test]
fn persisted_document_round_trips() {
    let mut store = empty_store();
    store.create_new_todo(String::from("2022-02-02 Later")).unwrap();
    store.create_new_todo(String::from("2022-02-01 Earlier")).unwrap();
    store.mark_as_done(1).unwrap();

    let doc = store.persist_data();
    let reloaded = TodoStore::new_from_persistence(doc.as_str()).unwrap();

    let before = store.list_all_todos();
    let after = reloaded.list_all_todos();
    assert_eq!(before.len(), after.len());
    for (a, b) in before.iter().zip(after.iter()) {
        assert_eq!(a.id, b.id);
        assert_eq!(a.title, b.title);
        assert_eq!(a.due_date, b.due_date);
        assert_eq!(a.complete, b.complete);
    }
    assert_eq!(doc, reloaded.persist_data());
}

#[test]
fn empty_document_is_empty_store() {
    let store = empty_store();
    assert_eq!(0, store.list_all_todos().len());
    assert_eq!("{\"store\":[],\"next_id\":0}", store.persist_data());
}

#[test]
fn encoded_document_is_exact() {
    let mut store = empty_store();
    store.create_new_todo(String::from("2021-01-01 First Todo")).unwrap();

    assert_eq!(
        "{\"store\":[{\"id\":0,\"title\":\"First Todo\",\"due_date\":\"2021-01-01\",\"complete\":false}],\"next_id\":1}",
        store.persist_data()
    );
}

#[test]
fn corrupt_document_is_rejected() {
    let error = TodoStore::new_from_persistence("not json at all").err().unwrap();
    assert_eq!(
        "Error reading persistence file. Data is likely corrupted.",
        &error.message
    );
}

#[test]
fn document_with_repeated_ids_is_rejected() {
    let doc = "{\"store\":[{\"id\":0,\"title\":\"A\",\"due_date\":\"2021-01-01\",\"complete\":false},{\"id\":0,\"title\":\"B\",\"due_date\":\"2021-01-02\",\"complete\":false}],\"next_id\":1}";
    let error = TodoStore::new_from_persistence(doc).err().unwrap();
    assert_eq!(
        "Error reading persistence file. Data is likely corrupted.",
        &error.message
    );
}

#[test]
fn document_out_of_order_is_rejected() {
    let doc = "{\"store\":[{\"id\":0,\"title\":\"A\",\"due_date\":\"2021-01-02\",\"complete\":false},{\"id\":1,\"title\":\"B\",\"due_date\":\"2021-01-01\",\"complete\":false}],\"next_id\":2}";
    let error = TodoStore::new_from_persistence(doc).err().unwrap();
    assert_eq!(
        "Error reading persistence file. Data is likely corrupted.",
        &error.message
    );
}

#[test]
fn document_with_id_at_counter_is_rejected() {
    let doc = "{\"store\":[{\"id\":2,\"title\":\"A\",\"due_date\":\"2021-01-01\",\"complete\":false}],\"next_id\":2}";
    let error = TodoStore::new_from_persistence(doc).err().unwrap();
    assert_eq!(
        "Error reading persistence file. Data is likely corrupted.",
        &error.message
    );
}

#[test]
fn document_with_invalid_date_is_rejected() {
    let doc = "{\"store\":[{\"id\":0,\"title\":\"A\",\"due_date\":\"2021-02-30\",\"complete\":false}],\"next_id\":1}";
    let error = TodoStore::new_from_persistence(doc).err().unwrap();
    assert_eq!(
        "Error reading persistence file. Data is likely corrupted.",
        &error.message
    );
}
