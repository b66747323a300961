use memo_store::codec::load_from_text;
use memo_store::codec::parse_memo_line;
use memo_store::codec::save_to_text;
use memo_store::memo::Memo;
use memo_store::store::add_memo;

fn memo(id: &str, title: &str, content: &str, stamp: &str) -> Memo {
    Memo {
        id: id.to_string(),
        title: title.to_string(),
        content: content.to_string(),
        created_at: stamp.to_string(),
        updated_at: stamp.to_string(),
    }
}

#[test]
fn save_writes_one_line_per_memo() {
    let memos = vec![
        memo("1", "title1", "content1", "2020-01-01 00:00:00"),
        memo("2", "title2", "content2", "2020-01-02 12:30:45"),
    ];

    let text = save_to_text(&memos);

    assert_eq!(
        text,
        "1,title1,content1,2020-01-01 00:00:00,2020-01-01 00:00:00\n\
         2,title2,content2,2020-01-02 12:30:45,2020-01-02 12:30:45\n"
    );
}

#[test]
fn save_of_empty_store_is_empty_text() {
    let memos: Vec<Memo> = Vec::new();
    assert_eq!(save_to_text(&memos), "");
}

#[test]
fn load_of_empty_text_is_empty_store() {
    let memos = load_from_text("").expect("empty text loads");
    assert!(memos.is_empty());
}

#[test]
fn scenario_single_memo_survives_save_and_load() {
    let mut memos: Vec<Memo> = Vec::new();
    add_memo(
        &mut memos,
        memo("1", "title1", "content1", "2020-01-01 00:00:00"),
    );

    let text = save_to_text(&memos);
    let reloaded = load_from_text(&text).expect("saved text loads");

    assert_eq!(reloaded.len(), 1);
    assert_eq!(reloaded[0].id, "1");
    assert_eq!(reloaded[0].title, "title1");
    assert_eq!(reloaded[0].content, "content1");
    assert_eq!(reloaded[0].created_at, "2020-01-01 00:00:00");
    assert_eq!(reloaded[0].updated_at, "2020-01-01 00:00:00");
}

#[test]
fn round_trip_keeps_every_field_in_order() {
    let memos = vec![
        memo("1", "shopping", "milk; eggs", "2021-06-01 08:00:00"),
        memo("2", "ideas", "a walk", "2021-06-02 09:15:30"),
        memo("2", "duplicate id", "still kept", "2021-06-03 10:20:40"),
        memo("4", "", "", "2021-06-04 11:25:50"),
    ];

    let reloaded = load_from_text(&save_to_text(&memos)).expect("clean fields round-trip");

    assert_eq!(reloaded.len(), memos.len());
    for (orig, back) in memos.iter().zip(reloaded.iter()) {
        assert_eq!(orig.id, back.id);
        assert_eq!(orig.title, back.title);
        assert_eq!(orig.content, back.content);
        assert_eq!(orig.created_at, back.created_at);
        assert_eq!(orig.updated_at, back.updated_at);
    }
}

#[test]
fn line_with_fewer_than_five_fields_rejects_the_load() {
    assert!(load_from_text("1,title,content,2020-01-01 00:00:00\n").is_none());
    assert!(load_from_text("just one field\n").is_none());
    let mixed = "1,a,b,c,d\n2,too,short\n3,e,f,g,h\n";
    assert!(load_from_text(mixed).is_none());
}

#[test]
fn parse_line_takes_first_five_fields() {
    let m = parse_memo_line("1,title,content,2020-01-01,2020-01-02").expect("five fields");
    assert_eq!(m.id, "1");
    assert_eq!(m.title, "title");
    assert_eq!(m.content, "content");
    assert_eq!(m.created_at, "2020-01-01");
    assert_eq!(m.updated_at, "2020-01-02");

    let extra = parse_memo_line("1,a,b,c,d,ignored,ignored").expect("extra fields are ignored");
    assert_eq!(extra.updated_at, "d");

    assert!(parse_memo_line("a,b,c,d").is_none());
}

#[test]
fn empty_fields_are_preserved() {
    let m = parse_memo_line(",,,,").expect("five empty fields");
    assert_eq!(m.id, "");
    assert_eq!(m.title, "");
    assert_eq!(m.content, "");
    assert_eq!(m.created_at, "");
    assert_eq!(m.updated_at, "");
}

#[test]
fn comma_in_a_field_shifts_the_record() {
    let memos = vec![memo("1", "title, with comma", "content", "2020-01-01 00:00:00")];

    let reloaded = load_from_text(&save_to_text(&memos)).expect("still five or more fields");

    assert_eq!(reloaded[0].title, "title");
    assert_eq!(reloaded[0].content, " with comma");
}

#[test]
fn final_newline_terminates_the_last_record() {
    let with_newline = load_from_text("1,a,b,c,d\n").expect("terminated record");
    let without_newline = load_from_text("1,a,b,c,d").expect("unterminated record");
    assert_eq!(with_newline.len(), 1);
    assert_eq!(without_newline.len(), 1);
    assert_eq!(with_newline[0].id, without_newline[0].id);
}
