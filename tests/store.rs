use pointhub::error::StoreError;
use pointhub::models::{
    Class, CreateClassRequest, CreateProductRequest, CreatePurchaseRequest, CreateStudentRequest,
    PurchaseRecord, Student, StoredStudent, UpdateClassRequest, UpdateProductRequest,
    UpdateStudentRequest,
};
use pointhub::location::{data_dir_candidates, database_file_name, find_best_data_location};
use pointhub::ordering::number_key_of;
use pointhub::store::Database;

fn class_req(name: &str) -> CreateClassRequest {
    CreateClassRequest { name: name.to_string(), description: None }
}

fn student_req(name: &str, number: &str, points: i32, class_id: &str) -> CreateStudentRequest {
    CreateStudentRequest {
        name: name.to_string(),
        student_number: number.to_string(),
        points,
        class_id: class_id.to_string(),
    }
}

fn no_student_change() -> UpdateStudentRequest {
    UpdateStudentRequest { name: None, student_number: None, points: None, class_id: None }
}

fn class_by_id(db: &Database, id: &str) -> Class {
    db.get_all_classes().into_iter().find(|c| c.id == id).unwrap()
}

fn student_by_id(db: &Database, id: &str) -> Student {
    db.get_all_students().into_iter().find(|s| s.id == id).unwrap()
}

#[test]
fn example_class_and_student_lifecycle() {
    let mut db = Database::empty();
    let c = db.create_class(class_req("1A")).unwrap();
    assert_eq!(c.name, "1A");
    assert_eq!(c.student_count, 0);
    let amy = db.create_student(student_req("Amy", "001", 10, &c.id)).unwrap();
    assert_eq!(amy.class_name, "1A");
    assert_eq!(class_by_id(&db, &c.id).student_count, 1);
    let renamed = db
        .update_class(&c.id, UpdateClassRequest { name: Some("1B".to_string()), description: None })
        .unwrap();
    assert_eq!(renamed.name, "1B");
    assert_eq!(student_by_id(&db, &amy.id).class_name, "1B");
    db.delete_student(&amy.id).unwrap();
    assert_eq!(class_by_id(&db, &c.id).student_count, 0);
}

#[test]
fn student_count_follows_creations_and_deletions() {
    let mut db = Database::empty();
    let c = db.create_class(class_req("2A")).unwrap();
    assert_eq!(class_by_id(&db, &c.id).student_count, 0);
    let mut ids = Vec::new();
    for i in 0..3 {
        let s = db.create_student(student_req("S", &format!("{}", i), 0, &c.id)).unwrap();
        ids.push(s.id);
    }
    assert_eq!(class_by_id(&db, &c.id).student_count, 3);
    db.delete_student(&ids[1]).unwrap();
    assert_eq!(class_by_id(&db, &c.id).student_count, 2);
    db.create_student(student_req("T", "9", 0, &c.id)).unwrap();
    assert_eq!(class_by_id(&db, &c.id).student_count, 3);
    assert_eq!(db.get_students_by_class(&c.id).len(), 3);
}

#[test]
fn rename_reaches_only_the_renamed_class() {
    let mut db = Database::empty();
    let a = db.create_class(class_req("A")).unwrap();
    let b = db.create_class(class_req("B")).unwrap();
    let sa = db.create_student(student_req("x", "1", 0, &a.id)).unwrap();
    let sb = db.create_student(student_req("y", "2", 0, &b.id)).unwrap();
    db.update_class(&a.id, UpdateClassRequest { name: Some("A2".to_string()), description: None })
        .unwrap();
    assert_eq!(student_by_id(&db, &sa.id).class_name, "A2");
    assert_eq!(student_by_id(&db, &sb.id), sb);
}

#[test]
fn description_update_keeps_student_class_names() {
    let mut db = Database::empty();
    let a = db.create_class(class_req("A")).unwrap();
    let s = db.create_student(student_req("x", "1", 0, &a.id)).unwrap();
    let c = db
        .update_class(&a.id, UpdateClassRequest { name: None, description: Some("d".to_string()) })
        .unwrap();
    assert_eq!(c.name, "A");
    assert_eq!(c.description, Some("d".to_string()));
    assert_eq!(student_by_id(&db, &s.id).class_name, "A");
}

#[test]
fn moving_a_student_recounts_both_classes() {
    let mut db = Database::empty();
    let a = db.create_class(class_req("A")).unwrap();
    let b = db.create_class(class_req("B")).unwrap();
    let s1 = db.create_student(student_req("x", "1", 0, &a.id)).unwrap();
    db.create_student(student_req("y", "2", 0, &a.id)).unwrap();
    db.create_student(student_req("z", "3", 0, &b.id)).unwrap();
    let mut req = no_student_change();
    req.class_id = Some(b.id.clone());
    let moved = db.update_student(&s1.id, req).unwrap();
    assert_eq!(moved.class_id, b.id);
    assert_eq!(moved.class_name, "B");
    assert_eq!(class_by_id(&db, &a.id).student_count, 1);
    assert_eq!(class_by_id(&db, &b.id).student_count, 2);
}

#[test]
fn deleting_a_class_deletes_its_students() {
    let mut db = Database::empty();
    let a = db.create_class(class_req("A")).unwrap();
    let b = db.create_class(class_req("B")).unwrap();
    db.create_student(student_req("x", "1", 0, &a.id)).unwrap();
    db.create_student(student_req("y", "2", 0, &a.id)).unwrap();
    let kept = db.create_student(student_req("z", "3", 0, &b.id)).unwrap();
    db.delete_class(&a.id);
    assert!(db.get_students_by_class(&a.id).is_empty());
    assert_eq!(db.get_all_students(), vec![kept]);
    assert_eq!(db.get_all_classes().len(), 1);
    assert_eq!(class_by_id(&db, &b.id).student_count, 1);
}

#[test]
fn empty_class_update_is_rejected_and_changes_nothing() {
    let mut db = Database::empty();
    let a = db.create_class(class_req("A")).unwrap();
    let before = db.get_all_classes();
    let r = db.update_class(&a.id, UpdateClassRequest { name: None, description: None });
    assert_eq!(r, Err(StoreError::InvalidArgument));
    assert_eq!(db.get_all_classes(), before);
}

#[test]
fn empty_student_update_returns_the_student_unchanged() {
    let mut db = Database::empty();
    let a = db.create_class(class_req("A")).unwrap();
    let s = db.create_student(student_req("x", "1", 5, &a.id)).unwrap();
    let r = db.update_student(&s.id, no_student_change()).unwrap();
    assert_eq!(r, s);
    let mut same_class = no_student_change();
    same_class.class_id = Some(a.id.clone());
    assert_eq!(db.update_student(&s.id, same_class).unwrap(), s);
    assert_eq!(db.get_all_students(), vec![s]);
}

#[test]
fn student_update_writes_supplied_fields() {
    let mut db = Database::empty();
    let a = db.create_class(class_req("A")).unwrap();
    let s = db.create_student(student_req("x", "1", 5, &a.id)).unwrap();
    let mut req = no_student_change();
    req.points = Some(-3);
    req.student_number = Some("42".to_string());
    let r = db.update_student(&s.id, req).unwrap();
    assert_eq!(r.points, -3);
    assert_eq!(r.student_number, "42");
    assert_eq!(r.name, "x");
    assert_eq!(student_by_id(&db, &s.id), r);
}

#[test]
fn missing_ids_are_not_found() {
    let mut db = Database::empty();
    let a = db.create_class(class_req("A")).unwrap();
    let s = db.create_student(student_req("x", "1", 5, &a.id)).unwrap();
    assert_eq!(db.create_student(student_req("y", "2", 0, "nope")), Err(StoreError::NotFound));
    assert_eq!(
        db.update_class("nope", UpdateClassRequest { name: Some("n".to_string()), description: None }),
        Err(StoreError::NotFound)
    );
    assert_eq!(db.update_student("nope", no_student_change()), Err(StoreError::NotFound));
    let mut req = no_student_change();
    req.class_id = Some("nope".to_string());
    req.name = Some("changed".to_string());
    assert_eq!(db.update_student(&s.id, req), Err(StoreError::NotFound));
    assert_eq!(student_by_id(&db, &s.id), s);
    assert_eq!(db.delete_student("nope"), Err(StoreError::NotFound));
    assert_eq!(db.delete_product("nope"), Err(StoreError::NotFound));
    assert_eq!(db.update_shipping_status("nope", "shipped"), Err(StoreError::NotFound));
    assert_eq!(class_by_id(&db, &a.id).student_count, 1);
}

#[test]
fn taken_ids_are_refused() {
    let mut db = Database::empty();
    let c = db.create_class_with("c1".to_string(), 1, class_req("A")).unwrap();
    assert_eq!(c.created_at, 1);
    assert_eq!(db.create_class_with("c1".to_string(), 2, class_req("B")), Err(StoreError::AlreadyExists));
    db.create_student_with("s1".to_string(), 3, student_req("x", "1", 0, "c1")).unwrap();
    assert_eq!(
        db.create_student_with("s1".to_string(), 4, student_req("y", "2", 0, "c1")),
        Err(StoreError::AlreadyExists)
    );
    assert_eq!(db.get_all_classes().len(), 1);
    assert_eq!(db.get_all_students().len(), 1);
}

#[test]
fn classes_are_listed_newest_first() {
    let mut db = Database::empty();
    db.create_class_with("old".to_string(), 10, class_req("Old")).unwrap();
    db.create_class_with("new".to_string(), 30, class_req("New")).unwrap();
    db.create_class_with("mid".to_string(), 20, class_req("Mid")).unwrap();
    let names: Vec<String> = db.get_all_classes().into_iter().map(|c| c.name).collect();
    assert_eq!(names, vec!["New", "Mid", "Old"]);
}

#[test]
fn students_are_listed_by_numeric_student_number() {
    let mut db = Database::empty();
    let a = db.create_class(class_req("A")).unwrap();
    db.create_student(student_req("ten", "10", 0, &a.id)).unwrap();
    db.create_student(student_req("nine", "9", 0, &a.id)).unwrap();
    db.create_student(student_req("word", "abc", 0, &a.id)).unwrap();
    db.create_student(student_req("hundred", "0100", 0, &a.id)).unwrap();
    db.create_student(student_req("minus", "-5", 0, &a.id)).unwrap();
    db.create_student(student_req("spaced", " 7", 0, &a.id)).unwrap();
    let names: Vec<String> = db.get_students_by_class(&a.id).into_iter().map(|s| s.name).collect();
    assert_eq!(names, vec!["minus", "word", "spaced", "nine", "ten", "hundred"]);
}

#[test]
fn number_keys_read_leading_digits() {
    assert_eq!(number_key_of(&"2021001".to_string()), 2021001);
    assert_eq!(number_key_of(&"12ab".to_string()), 12);
    assert_eq!(number_key_of(&"abc".to_string()), 0);
    assert_eq!(number_key_of(&"".to_string()), 0);
    assert_eq!(number_key_of(&"99999999999999999999999".to_string()), i64::MAX);
    assert_eq!(number_key_of(&"-99999999999999999999999".to_string()), i64::MIN);
    assert_eq!(number_key_of(&"-5".to_string()), -5);
    assert_eq!(number_key_of(&"  7x".to_string()), 7);
    assert_eq!(number_key_of(&"+3".to_string()), 3);
    assert_eq!(number_key_of(&"- 3".to_string()), 0);
}

#[test]
fn products_are_created_updated_and_deleted() {
    let mut db = Database::empty();
    let a = db.create_class(class_req("A")).unwrap();
    let p = db
        .create_product(CreateProductRequest { name: "pen".to_string(), points: 5, stock: 10, class_id: a.id.clone() })
        .unwrap();
    assert_eq!(p.stock, 10);
    assert_eq!(
        db.update_product(&p.id, UpdateProductRequest { name: None, points: None, stock: None }),
        Err(StoreError::InvalidArgument)
    );
    let q = db
        .update_product(&p.id, UpdateProductRequest { name: None, points: Some(7), stock: None })
        .unwrap();
    assert_eq!(q.points, 7);
    assert_eq!(q.name, "pen");
    assert_eq!(db.get_products_by_class(&a.id), vec![q]);
    assert!(db.get_products_by_class("other").is_empty());
    db.delete_product(&p.id).unwrap();
    assert!(db.get_products_by_class(&a.id).is_empty());
}

#[test]
fn purchases_copy_product_and_student_data() {
    let mut db = Database::empty();
    let a = db.create_class(class_req("A")).unwrap();
    let s = db.create_student(student_req("Amy", "1", 100, &a.id)).unwrap();
    let p = db
        .create_product(CreateProductRequest { name: "pen".to_string(), points: 5, stock: 10, class_id: a.id.clone() })
        .unwrap();
    let r = db
        .create_purchase_record(CreatePurchaseRequest { product_id: p.id.clone(), student_id: s.id.clone(), quantity: 2 })
        .unwrap();
    assert_eq!(r.product_name, "pen");
    assert_eq!(r.student_name, "Amy");
    assert_eq!(r.points, 5);
    assert_eq!(r.quantity, 2);
    assert_eq!(r.class_id, a.id);
    assert_eq!(r.shipping_status, "pending");
    assert_eq!(
        db.create_purchase_record(CreatePurchaseRequest { product_id: "x".to_string(), student_id: s.id.clone(), quantity: 1 }),
        Err(StoreError::NotFound)
    );
    db.update_shipping_status(&r.id, "shipped").unwrap();
    let listed: Vec<PurchaseRecord> = db.get_purchase_records_by_class(&a.id);
    assert_eq!(listed.len(), 1);
    assert_eq!(listed[0].shipping_status, "shipped");
    assert_eq!(student_by_id(&db, &s.id).points, 100);
}

#[test]
fn purchase_pages_are_newest_first() {
    let mut db = Database::empty();
    db.create_class_with("c".to_string(), 0, class_req("A")).unwrap();
    db.create_student_with("s".to_string(), 0, student_req("Amy", "1", 0, "c")).unwrap();
    db.create_product_with(
        "p".to_string(),
        0,
        CreateProductRequest { name: "pen".to_string(), points: 1, stock: 1, class_id: "c".to_string() },
    )
    .unwrap();
    for (id, t) in [("r1", 1), ("r3", 3), ("r2", 2), ("r4", 4)] {
        db.create_purchase_record_with(
            id.to_string(),
            t,
            CreatePurchaseRequest { product_id: "p".to_string(), student_id: "s".to_string(), quantity: 1 },
        )
        .unwrap();
    }
    let ids = |v: Vec<PurchaseRecord>| v.into_iter().map(|r| r.id).collect::<Vec<String>>();
    assert_eq!(ids(db.get_purchase_records_by_class("c")), vec!["r4", "r3", "r2", "r1"]);
    assert_eq!(ids(db.get_purchase_records_paginated("c", 1, 2)), vec!["r3", "r2"]);
    assert_eq!(ids(db.get_purchase_records_paginated("c", 3, 5)), vec!["r1"]);
    assert!(db.get_purchase_records_paginated("c", 9, 5).is_empty());
}

fn stored(id: &str, number: Option<&str>, created_at: Option<i64>, class_id: &str) -> StoredStudent {
    StoredStudent {
        id: id.to_string(),
        name: "n".to_string(),
        student_number: number.map(|s| s.to_string()),
        points: 1,
        class_id: class_id.to_string(),
        class_name: "C".to_string(),
        created_at,
    }
}

#[test]
fn legacy_rows_are_backfilled() {
    let class = Class {
        id: "c".to_string(),
        name: "C".to_string(),
        description: None,
        student_count: 7,
        created_at: 5,
    };
    let rows = vec![
        stored("abcdefgh-1111", None, None, "c"),
        stored("zyxwvuts-2222", Some(""), Some(9), "c"),
        stored("short", None, Some(3), "c"),
        stored("keep", Some("007"), None, "c"),
    ];
    let db = Database::from_rows(vec![class], rows, Vec::new(), Vec::new(), 1000).unwrap();
    let students = db.get_students_by_class("c");
    let find = |id: &str| students.iter().find(|s| s.id == id).unwrap().clone();
    assert_eq!(find("abcdefgh-1111").student_number, "STUabcdefgh-1111");
    assert_eq!(find("abcdefgh-1111").created_at, 1000);
    assert_eq!(find("zyxwvuts-2222").student_number, "STUzyxwvuts-2222");
    assert_eq!(find("zyxwvuts-2222").created_at, 9);
    assert_eq!(find("short").student_number, "STUshort");
    assert_eq!(find("keep").student_number, "007");
    assert_eq!(class_by_id(&db, "c").student_count, 4);
}

#[test]
fn legacy_ids_with_a_common_prefix_get_distinct_numbers() {
    let rows = vec![stored("abcdefgh1", None, None, "c"), stored("abcdefgh2", Some(""), None, "c")];
    let db = Database::from_rows(Vec::new(), rows, Vec::new(), Vec::new(), 0).unwrap();
    let numbers: Vec<String> = db.get_all_students().into_iter().map(|s| s.student_number).collect();
    assert_eq!(numbers.len(), 2);
    assert!(numbers.contains(&"STUabcdefgh1".to_string()));
    assert!(numbers.contains(&"STUabcdefgh2".to_string()));
}

#[test]
fn seeding_with_a_taken_student_id_writes_nothing() {
    let rows = vec![stored("s1", Some("1"), Some(0), "gone")];
    let mut db = Database::from_rows(Vec::new(), rows, Vec::new(), Vec::new(), 0).unwrap();
    let before = db.get_all_students();
    assert_eq!(
        db.init_sample_data_with("c1".to_string(), "s1".to_string(), 0),
        Err(StoreError::AlreadyExists)
    );
    assert!(db.get_all_classes().is_empty());
    assert_eq!(db.get_all_students(), before);
    db.init_sample_data_with("c1".to_string(), "s2".to_string(), 0).unwrap();
    assert_eq!(db.get_all_classes()[0].student_count, 1);
}

#[test]
fn opening_rows_with_classes_keeps_them_unseeded() {
    let class = Class {
        id: "c".to_string(),
        name: "C".to_string(),
        description: None,
        student_count: 0,
        created_at: 5,
    };
    let rows = vec![stored("s", None, None, "c")];
    let db = Database::new(vec![class], rows, Vec::new(), Vec::new()).unwrap();
    let classes = db.get_all_classes();
    assert_eq!(classes.len(), 1);
    assert_eq!(classes[0].id, "c");
    assert_eq!(classes[0].student_count, 1);
    let students = db.get_all_students();
    assert_eq!(students.len(), 1);
    assert_eq!(students[0].student_number, "STUs");
    assert!(students[0].created_at > 0);
}

#[test]
fn repeated_ids_in_rows_are_refused() {
    let rows = vec![stored("a", None, None, "c"), stored("a", None, None, "c")];
    assert!(matches!(
        Database::from_rows(Vec::new(), rows, Vec::new(), Vec::new(), 0),
        Err(StoreError::AlreadyExists)
    ));
}

#[test]
fn a_new_store_is_seeded_once() {
    let db = Database::new(Vec::new(), Vec::new(), Vec::new(), Vec::new()).unwrap();
    let classes = db.get_all_classes();
    assert_eq!(classes.len(), 1);
    assert_eq!(classes[0].student_count, 1);
    assert_eq!(classes[0].name, "计算机科学与技术2021级1班");
    let students = db.get_all_students();
    assert_eq!(students.len(), 1);
    assert_eq!(students[0].name, "张三");
    assert_eq!(students[0].student_number, "2021001");
    assert_eq!(students[0].points, 85);
    assert_eq!(students[0].class_id, classes[0].id);

    let mut again = Database::empty();
    again.create_class(class_req("X")).unwrap();
    again.init_sample_data().unwrap();
    assert_eq!(again.get_all_classes().len(), 1);
    assert!(again.get_all_students().is_empty());
}

#[test]
fn generated_ids_and_times_are_fresh() {
    let mut db = Database::empty();
    let a = db.create_class(class_req("A")).unwrap();
    let b = db.create_class(class_req("B")).unwrap();
    assert_eq!(a.id.len(), 36);
    assert_ne!(a.id, b.id);
    assert!(a.created_at > 1_500_000_000_000_000);
}

#[test]
fn data_location_prefers_first_existing_parent() {
    let c = data_dir_candidates();
    assert_eq!(c, vec!["D:\\PointHub", "E:\\PointHub", "F:\\PointHub"]);
    let fallback = "/data/app".to_string();
    assert_eq!(find_best_data_location(&c, &vec![false, true, true], &fallback), "E:\\PointHub");
    assert_eq!(find_best_data_location(&c, &vec![false, false, false], &fallback), "/data/app");
    assert_eq!(database_file_name(), "pointhub.db");
}

#[test]
fn errors_have_messages() {
    assert_eq!(StoreError::InvalidArgument.message(), "No fields to update");
    assert!(!StoreError::NotFound.message().is_empty());
}
