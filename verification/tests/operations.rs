use whiteboard::{
    add_stroke, clear_board, create_board, delete_stroke, delete_stroke_anyone,
    identity_connected, identity_disconnected, init, ClearOutcome, Context, Database,
    DeleteOutcome, InsertError, Level, Point,
};

fn ctx(sender: &str, timestamp: u64) -> Context {
    Context { sender: sender.to_string(), timestamp }
}

fn pt(x: f32, y: f32) -> Point {
    Point { x: x.to_bits(), y: y.to_bits() }
}

#[test]
fn refused_then_deleted_by_author() {
    let a = ctx("A", 1_000);
    let b = ctx("B", 2_000);
    let mut db = Database::new();

    assert_eq!(create_board(&mut db, &a, "Demo".to_string()), Ok(1));
    let id = add_stroke(
        &mut db,
        &a,
        1,
        "red".to_string(),
        2.0f32.to_bits(),
        vec![pt(0.0, 0.0), pt(1.0, 1.0)],
    );
    assert_eq!(id, Ok(1));
    assert_eq!(db.find_stroke(1).unwrap().user, "A");

    assert_eq!(delete_stroke(&mut db, &b, 1), DeleteOutcome::Forbidden);
    assert!(db.find_stroke(1).is_some());
    assert_eq!(db.stroke_count(), 1);

    assert_eq!(delete_stroke(&mut db, &a, 1), DeleteOutcome::Deleted);
    assert!(db.find_stroke(1).is_none());
    assert_eq!(db.stroke_count(), 0);
}

#[test]
fn clear_board_removes_only_that_boards_strokes() {
    let a = ctx("A", 10);
    let b = ctx("B", 20);
    let mut db = Database::new();
    assert_eq!(create_board(&mut db, &a, "one".to_string()), Ok(1));
    assert_eq!(create_board(&mut db, &a, "two".to_string()), Ok(2));

    assert_eq!(add_stroke(&mut db, &a, 2, "blue".to_string(), 0, vec![pt(5.0, 5.0)]), Ok(1));
    assert_eq!(add_stroke(&mut db, &a, 1, "red".to_string(), 0, vec![]), Ok(2));
    assert_eq!(add_stroke(&mut db, &b, 1, "green".to_string(), 0, vec![]), Ok(3));

    assert_eq!(clear_board(&mut db, &b, 1), ClearOutcome::Cleared);

    assert!(db.find_stroke(2).is_none());
    assert!(db.find_stroke(3).is_none());
    let kept = db.find_stroke(1).unwrap();
    assert_eq!(kept.board_id, 2);
    assert_eq!(kept.color, "blue");
    assert_eq!(kept.points, vec![pt(5.0, 5.0)]);
    assert_eq!(db.stroke_count(), 1);
    assert_eq!(db.board_count(), 2);
}

#[test]
fn clear_of_unknown_board_changes_nothing() {
    let a = ctx("A", 10);
    let mut db = Database::new();
    assert_eq!(create_board(&mut db, &a, "one".to_string()), Ok(1));
    assert_eq!(add_stroke(&mut db, &a, 1, "red".to_string(), 0, vec![]), Ok(1));
    assert_eq!(add_stroke(&mut db, &a, 999, "red".to_string(), 0, vec![]), Ok(2));

    assert_eq!(clear_board(&mut db, &a, 999), ClearOutcome::BoardNotFound);

    assert_eq!(db.stroke_count(), 2);
    assert!(db.find_stroke(1).is_some());
    assert_eq!(db.find_stroke(2).unwrap().board_id, 999);
    assert_eq!(db.board_count(), 1);
}

#[test]
fn stroke_on_missing_board_is_stored() {
    let a = ctx("A", 77);
    let mut db = Database::new();
    let id = add_stroke(&mut db, &a, 42, "black".to_string(), 1.5f32.to_bits(), vec![pt(3.0, 4.0)]);
    assert_eq!(id, Ok(1));
    assert!(db.find_board(42).is_none());
    let s = db.find_stroke(1).unwrap();
    assert_eq!(s.id, 1);
    assert_eq!(s.board_id, 42);
    assert_eq!(s.user, "A");
    assert_eq!(s.color, "black");
    assert_eq!(f32::from_bits(s.thickness), 1.5);
    assert_eq!(s.timestamp, 77);
    assert_eq!(s.points, vec![pt(3.0, 4.0)]);
}

#[test]
fn ids_are_distinct_and_ascend_per_table() {
    let a = ctx("A", 0);
    let mut db = Database::new();
    let mut boards = Vec::new();
    let mut strokes = Vec::new();
    for n in 0..5u64 {
        boards.push(create_board(&mut db, &a, "same name".to_string()).unwrap());
        strokes.push(add_stroke(&mut db, &a, n, String::new(), 0, vec![]).unwrap());
        strokes.push(add_stroke(&mut db, &a, n, String::new(), 0, vec![]).unwrap());
    }
    assert_eq!(boards, vec![1, 2, 3, 4, 5]);
    assert_eq!(strokes, vec![1, 2, 3, 4, 5, 6, 7, 8, 9, 10]);
    for id in &boards {
        assert_eq!(db.find_board(*id).unwrap().id, *id);
    }
    for id in &strokes {
        assert_eq!(db.find_stroke(*id).unwrap().id, *id);
    }
}

#[test]
fn deleted_id_is_not_handed_out_again() {
    let a = ctx("A", 0);
    let mut db = Database::new();
    assert_eq!(add_stroke(&mut db, &a, 1, String::new(), 0, vec![]), Ok(1));
    assert_eq!(add_stroke(&mut db, &a, 1, String::new(), 0, vec![]), Ok(2));
    assert_eq!(delete_stroke(&mut db, &a, 2), DeleteOutcome::Deleted);
    assert_eq!(add_stroke(&mut db, &a, 1, String::new(), 0, vec![]), Ok(3));
    assert_eq!(delete_stroke_anyone(&mut db, &a, 1), DeleteOutcome::Deleted);
    assert_eq!(delete_stroke_anyone(&mut db, &a, 3), DeleteOutcome::Deleted);
    assert_eq!(db.stroke_count(), 0);
    assert_eq!(add_stroke(&mut db, &a, 1, String::new(), 0, vec![]), Ok(4));
    assert!(db.find_stroke(1).is_none());
    assert!(db.find_stroke(2).is_none());
    assert!(db.find_stroke(3).is_none());
    assert_eq!(db.find_stroke(4).unwrap().id, 4);
}

#[test]
fn only_the_author_deletes_through_delete_stroke() {
    let u = ctx("user-u", 0);
    let v = ctx("user-v", 0);
    let mut db = Database::new();
    assert_eq!(add_stroke(&mut db, &u, 1, "c".to_string(), 0, vec![pt(1.0, 2.0)]), Ok(1));
    assert_eq!(add_stroke(&mut db, &v, 1, "d".to_string(), 0, vec![]), Ok(2));

    assert_eq!(delete_stroke(&mut db, &v, 1), DeleteOutcome::Forbidden);
    assert_eq!(delete_stroke(&mut db, &u, 2), DeleteOutcome::Forbidden);
    assert_eq!(db.stroke_count(), 2);
    assert_eq!(db.find_stroke(1).unwrap().user, "user-u");
    assert_eq!(db.find_stroke(1).unwrap().points, vec![pt(1.0, 2.0)]);

    assert_eq!(delete_stroke(&mut db, &u, 1), DeleteOutcome::Deleted);
    assert!(db.find_stroke(1).is_none());
    assert_eq!(db.find_stroke(2).unwrap().user, "user-v");
    assert_eq!(db.stroke_count(), 1);
}

#[test]
fn identity_is_compared_exactly() {
    let u = ctx("alice", 0);
    let mut db = Database::new();
    assert_eq!(add_stroke(&mut db, &u, 1, String::new(), 0, vec![]), Ok(1));
    assert_eq!(delete_stroke(&mut db, &ctx("Alice", 0), 1), DeleteOutcome::Forbidden);
    assert_eq!(delete_stroke(&mut db, &ctx("alice ", 0), 1), DeleteOutcome::Forbidden);
    assert_eq!(delete_stroke(&mut db, &ctx("", 0), 1), DeleteOutcome::Forbidden);
    // The time of the call plays no part in who the caller is.
    assert_eq!(delete_stroke(&mut db, &ctx("alice", 99), 1), DeleteOutcome::Deleted);
}

#[test]
fn delete_stroke_anyone_ignores_the_author() {
    let u = ctx("U", 0);
    let v = ctx("V", 0);
    let mut db = Database::new();
    assert_eq!(add_stroke(&mut db, &u, 1, String::new(), 0, vec![]), Ok(1));
    assert_eq!(add_stroke(&mut db, &u, 1, String::new(), 0, vec![]), Ok(2));
    assert_eq!(add_stroke(&mut db, &u, 1, String::new(), 0, vec![]), Ok(3));

    assert_eq!(delete_stroke_anyone(&mut db, &v, 2), DeleteOutcome::Deleted);
    assert!(db.find_stroke(2).is_none());
    assert!(db.find_stroke(1).is_some());
    assert!(db.find_stroke(3).is_some());
    assert_eq!(db.stroke_count(), 2);

    assert_eq!(delete_stroke_anyone(&mut db, &u, 1), DeleteOutcome::Deleted);
    assert_eq!(db.stroke_count(), 1);
    assert_eq!(db.find_stroke(3).unwrap().id, 3);
}

#[test]
fn clear_board_is_complete_and_touches_nothing_else() {
    let a = ctx("A", 5);
    let mut db = Database::new();
    for _ in 0..3 {
        create_board(&mut db, &a, "b".to_string()).unwrap();
    }
    // Stroke ids 1..=9; board of stroke n is 1 + (n - 1) % 3.
    for n in 0..9u64 {
        let id = add_stroke(&mut db, &a, 1 + n % 3, format!("c{}", n), 0, vec![pt(n as f32, 0.0)]);
        assert_eq!(id, Ok(n + 1));
    }
    assert_eq!(clear_board(&mut db, &a, 2), ClearOutcome::Cleared);
    assert_eq!(db.stroke_count(), 6);
    for n in 0..9u64 {
        let found = db.find_stroke(n + 1);
        if 1 + n % 3 == 2 {
            assert!(found.is_none());
        } else {
            let s = found.unwrap();
            assert_eq!(s.board_id, 1 + n % 3);
            assert_eq!(s.color, format!("c{}", n));
            assert_eq!(s.points, vec![pt(n as f32, 0.0)]);
        }
    }
    // The board itself stays, and clearing it again finds nothing to remove.
    assert_eq!(db.find_board(2).unwrap().name, "b");
    assert_eq!(clear_board(&mut db, &a, 2), ClearOutcome::Cleared);
    assert_eq!(db.stroke_count(), 6);
    // New strokes go on from the last id.
    assert_eq!(add_stroke(&mut db, &a, 2, String::new(), 0, vec![]), Ok(10));
}

#[test]
fn clear_board_of_adjacent_strokes() {
    let a = ctx("A", 5);
    let mut db = Database::new();
    create_board(&mut db, &a, "b".to_string()).unwrap();
    for board in [1u64, 1, 1, 7, 1, 1] {
        add_stroke(&mut db, &a, board, String::new(), 0, vec![]).unwrap();
    }
    assert_eq!(clear_board(&mut db, &a, 1), ClearOutcome::Cleared);
    assert_eq!(db.stroke_count(), 1);
    assert_eq!(db.find_stroke(4).unwrap().board_id, 7);
}

#[test]
fn missing_targets_change_nothing() {
    let a = ctx("A", 5);
    let mut db = Database::new();
    assert_eq!(delete_stroke(&mut db, &a, 1), DeleteOutcome::NotFound);
    assert_eq!(delete_stroke_anyone(&mut db, &a, 1), DeleteOutcome::NotFound);
    assert_eq!(clear_board(&mut db, &a, 1), ClearOutcome::BoardNotFound);
    assert_eq!(db.board_count(), 0);
    assert_eq!(db.stroke_count(), 0);

    create_board(&mut db, &a, "b".to_string()).unwrap();
    add_stroke(&mut db, &a, 1, "x".to_string(), 3, vec![pt(1.0, 1.0)]).unwrap();
    assert_eq!(delete_stroke(&mut db, &a, 0), DeleteOutcome::NotFound);
    assert_eq!(delete_stroke(&mut db, &a, 2), DeleteOutcome::NotFound);
    assert_eq!(delete_stroke_anyone(&mut db, &a, u64::MAX), DeleteOutcome::NotFound);
    assert_eq!(clear_board(&mut db, &a, 0), ClearOutcome::BoardNotFound);
    assert_eq!(clear_board(&mut db, &a, 2), ClearOutcome::BoardNotFound);
    assert_eq!(db.board_count(), 1);
    assert_eq!(db.stroke_count(), 1);
    let s = db.find_stroke(1).unwrap();
    assert_eq!((s.board_id, s.color.as_str(), s.thickness), (1, "x", 3));
    // The next ids are the ones that would have come anyway.
    assert_eq!(create_board(&mut db, &a, "c".to_string()), Ok(2));
    assert_eq!(add_stroke(&mut db, &a, 1, String::new(), 0, vec![]), Ok(2));
}

#[test]
fn points_read_back_in_order_with_repeats() {
    let a = ctx("A", 5);
    let mut db = Database::new();
    let points = vec![
        pt(1.0, 2.0),
        pt(1.0, 2.0),
        pt(-3.5, 0.0),
        pt(0.0, -0.0),
        pt(1.0, 2.0),
        pt(f32::MAX, f32::MIN_POSITIVE),
    ];
    let id = add_stroke(&mut db, &a, 1, "c".to_string(), 0, points.clone()).unwrap();
    // A later insert and a delete of another stroke do not disturb it.
    let other = add_stroke(&mut db, &a, 1, "d".to_string(), 0, vec![pt(9.0, 9.0)]).unwrap();
    assert_eq!(delete_stroke(&mut db, &a, other), DeleteOutcome::Deleted);
    let s = db.find_stroke(id).unwrap();
    assert_eq!(s.points, points);
    assert_eq!(f32::from_bits(s.points[2].x), -3.5);
    assert!(f32::from_bits(s.points[3].y).is_sign_negative());
}

#[test]
fn nothing_is_validated_on_insert() {
    let a = ctx("", 0);
    let mut db = Database::new();
    assert_eq!(create_board(&mut db, &a, String::new()), Ok(1));
    assert_eq!(create_board(&mut db, &a, String::new()), Ok(2));
    assert_eq!(db.find_board(1).unwrap().name, "");
    assert_eq!(db.find_board(2).unwrap().name, "");

    let id = add_stroke(&mut db, &a, 0, String::new(), (-1.0f32).to_bits(), vec![]).unwrap();
    let s = db.find_stroke(id).unwrap();
    assert_eq!(s.board_id, 0);
    assert_eq!(s.user, "");
    assert_eq!(s.color, "");
    assert_eq!(f32::from_bits(s.thickness), -1.0);
    assert!(s.points.is_empty());

    let nan = add_stroke(&mut db, &a, 0, String::new(), f32::NAN.to_bits(), vec![]).unwrap();
    assert!(f32::from_bits(db.find_stroke(nan).unwrap().thickness).is_nan());
}

#[test]
fn author_and_time_come_from_the_call() {
    let mut db = Database::new();
    add_stroke(&mut db, &ctx("first", 1_700_000_000_000), 1, String::new(), 0, vec![]).unwrap();
    add_stroke(&mut db, &ctx("second", 3), 1, String::new(), 0, vec![]).unwrap();
    let s1 = db.find_stroke(1).unwrap();
    assert_eq!((s1.user.as_str(), s1.timestamp), ("first", 1_700_000_000_000));
    let s2 = db.find_stroke(2).unwrap();
    assert_eq!((s2.user.as_str(), s2.timestamp), ("second", 3));
}

#[test]
fn new_dataset_is_empty() {
    let db = Database::new();
    assert_eq!(db.board_count(), 0);
    assert_eq!(db.stroke_count(), 0);
    assert!(db.find_board(0).is_none());
    assert!(db.find_board(1).is_none());
    assert!(db.find_stroke(0).is_none());
    assert!(db.find_stroke(1).is_none());
}

#[test]
fn id_sequences_end_at_the_largest_id() {
    let a = ctx("A", 0);
    let mut db = Database::resume(u64::MAX - 1, u64::MAX - 2);
    assert_eq!(db.board_count(), 0);
    assert_eq!(db.stroke_count(), 0);

    assert_eq!(create_board(&mut db, &a, "last".to_string()), Ok(u64::MAX));
    assert_eq!(
        create_board(&mut db, &a, "over".to_string()),
        Err(InsertError::SequenceExhausted)
    );
    assert_eq!(db.board_count(), 1);
    assert_eq!(db.find_board(u64::MAX).unwrap().name, "last");

    assert_eq!(add_stroke(&mut db, &a, 1, String::new(), 0, vec![]), Ok(u64::MAX - 1));
    assert_eq!(add_stroke(&mut db, &a, 1, String::new(), 0, vec![]), Ok(u64::MAX));
    assert_eq!(
        add_stroke(&mut db, &a, 1, String::new(), 0, vec![]),
        Err(InsertError::SequenceExhausted)
    );
    assert_eq!(db.stroke_count(), 2);
    // Deleting does not free an id.
    assert_eq!(delete_stroke(&mut db, &a, u64::MAX), DeleteOutcome::Deleted);
    assert_eq!(
        add_stroke(&mut db, &a, 1, String::new(), 0, vec![]),
        Err(InsertError::SequenceExhausted)
    );
    assert_eq!(db.stroke_count(), 1);
}

#[test]
fn resumed_sequences_are_independent() {
    let a = ctx("A", 0);
    let mut db = Database::resume(10, 20);
    assert_eq!(create_board(&mut db, &a, "b".to_string()), Ok(11));
    assert_eq!(add_stroke(&mut db, &a, 11, String::new(), 0, vec![]), Ok(21));
    assert_eq!(create_board(&mut db, &a, "b".to_string()), Ok(12));
    assert!(db.find_board(10).is_none());
    assert!(db.find_stroke(20).is_none());
}

#[test]
fn outcomes_are_reported_at_their_level() {
    assert_eq!(DeleteOutcome::Deleted.level(), Some(Level::Info));
    assert_eq!(DeleteOutcome::Forbidden.level(), Some(Level::Warn));
    assert_eq!(DeleteOutcome::NotFound.level(), None);
    assert_eq!(ClearOutcome::Cleared.level(), Level::Info);
    assert_eq!(ClearOutcome::BoardNotFound.level(), Level::Warn);
}

#[test]
fn lifecycle_hooks_leave_the_dataset_alone() {
    let a = ctx("A", 1);
    let b = ctx("B", 2);
    let mut db = Database::new();
    init(&mut db, &a);
    assert_eq!(db.board_count(), 0);
    assert_eq!(db.stroke_count(), 0);
    assert_eq!(create_board(&mut db, &a, "b".to_string()), Ok(1));
    assert_eq!(add_stroke(&mut db, &a, 1, "red".to_string(), 4, vec![pt(1.0, 2.0)]), Ok(1));
    let before = db.find_stroke(1).unwrap().clone();

    identity_connected(&mut db, &b);
    identity_disconnected(&mut db, &a);
    identity_disconnected(&mut db, &b);

    assert_eq!(db.board_count(), 1);
    assert_eq!(db.stroke_count(), 1);
    assert_eq!(db.find_board(1).unwrap().name, "b");
    assert_eq!(*db.find_stroke(1).unwrap(), before);
    // The author may still delete after disconnecting.
    assert_eq!(delete_stroke(&mut db, &b, 1), DeleteOutcome::Forbidden);
    assert_eq!(delete_stroke(&mut db, &a, 1), DeleteOutcome::Deleted);
    assert_eq!(add_stroke(&mut db, &b, 1, String::new(), 0, vec![]), Ok(2));
}
