use memo_store::memo::Memo;
use memo_store::store::add_memo;
use memo_store::store::delete_memo;
use memo_store::store::find_memo;
use memo_store::store::find_memo_mut;

fn memo(id: &str, title: &str, content: &str) -> Memo {
    Memo {
        id: id.to_string(),
        title: title.to_string(),
        content: content.to_string(),
        created_at: "2020-01-01".to_string(),
        updated_at: "2020-01-01".to_string(),
    }
}

#[test]
fn test_add_memo_mut() {
    let mut memos: Vec<Memo> = Vec::new();
    let new_memo = Memo {
        id: "1".to_string(),
        title: "title1".to_string(),
        content: "content1".to_string(),
        created_at: "2020-01-01".to_string(),
        updated_at: "2020-01-01".to_string(),
    };

    add_memo(&mut memos, new_memo);

    assert_eq!(memos.len(), 1);
    assert_eq!(memos[0].id, "1");
}

#[test]
fn test_find_memo() {
    let memos = vec![Memo {
        id: "1".to_string(),
        title: "title1".to_string(),
        content: "content1".to_string(),
        created_at: "2020-01-01".to_string(),
        updated_at: "2020-01-01".to_string(),
    }];

    if let Some(memo) = find_memo(&memos, "1") {
        assert_eq!(memo.title, "title1");
    } else {
        panic!("Memo not found");
    }
}

#[test]
fn test_find_memo_mut() {
    let mut memos = vec![Memo {
        id: "1".to_string(),
        title: "title1".to_string(),
        content: "content1".to_string(),
        created_at: "2020-01-01".to_string(),
        updated_at: "2020-01-01".to_string(),
    }];

    if let Some(memo) = find_memo_mut(&mut memos, "1") {
        memo.content = "content updated".to_string();

        assert_eq!(memo.content, "content updated");
    } else {
        panic!("Memo not found");
    }
}

#[test]
fn test_delete_memo() {
    let mut memos = vec![Memo {
        id: "1".to_string(),
        title: "title1".to_string(),
        content: "content1".to_string(),
        created_at: "2020-01-01".to_string(),
        updated_at: "2020-01-01".to_string(),
    }];

    delete_memo(&mut memos, "1");

    assert_eq!(memos.len(), 0);
}

#[test]
fn append_keeps_length_and_order() {
    let mut memos: Vec<Memo> = Vec::new();
    add_memo(&mut memos, memo("1", "first", "a"));
    add_memo(&mut memos, memo("2", "second", "b"));
    add_memo(&mut memos, memo("3", "third", "c"));

    assert_eq!(memos.len(), 3);
    assert_eq!(memos[0].title, "first");
    assert_eq!(memos[1].title, "second");
    assert_eq!(memos[2].title, "third");
}

#[test]
fn find_absent_id_returns_none() {
    let memos = vec![memo("1", "title1", "content1")];
    assert!(find_memo(&memos, "2").is_none());
    let empty: Vec<Memo> = Vec::new();
    assert!(find_memo(&empty, "1").is_none());
}

#[test]
fn find_returns_first_match() {
    let mut memos = vec![
        memo("1", "first", "a"),
        memo("2", "second", "b"),
        memo("2", "third", "c"),
    ];
    assert_eq!(find_memo(&memos, "2").expect("present").title, "second");
    assert!(find_memo_mut(&mut memos, "2").is_some());
    assert_eq!(memos[1].title, "second");
}

#[test]
fn mutation_through_find_mut_visible_to_find() {
    let mut memos = vec![memo("1", "title1", "content1"), memo("2", "title2", "content2")];

    let found = find_memo_mut(&mut memos, "2").expect("present");
    found.content = "rewritten".to_string();

    let seen = find_memo(&memos, "2").expect("still present");
    assert_eq!(seen.content, "rewritten");
    assert_eq!(find_memo(&memos, "1").expect("untouched").content, "content1");
}

#[test]
fn delete_removes_every_match() {
    let mut memos = vec![
        memo("1", "first", "a"),
        memo("2", "second", "b"),
        memo("1", "third", "c"),
        memo("3", "fourth", "d"),
    ];

    delete_memo(&mut memos, "1");

    assert_eq!(memos.len(), 2);
    assert!(find_memo(&memos, "1").is_none());
    assert_eq!(memos[0].title, "second");
    assert_eq!(memos[1].title, "fourth");
}

#[test]
fn delete_absent_id_is_noop() {
    let mut memos = vec![memo("1", "first", "a"), memo("2", "second", "b")];

    delete_memo(&mut memos, "9");

    assert_eq!(memos.len(), 2);
    assert_eq!(memos[0].id, "1");
    assert_eq!(memos[1].id, "2");
}
