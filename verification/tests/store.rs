use meridian::store::{load_step, StoreError, StoreRead, StoreStep};

#[test]
fn only_a_missing_file_starts_an_empty_store() {
    assert!(matches!(load_step(StoreRead::Missing), StoreStep::Empty));
    assert!(matches!(load_step(StoreRead::Parsed), StoreStep::Use));
}

#[test]
fn a_damaged_file_is_backed_up_and_reported_never_emptied() {
    match load_step(StoreRead::Unparseable("expected value at line 1".into())) {
        StoreStep::BackUpThenFail(e) => {
            assert!(matches!(&e, StoreError::Corrupt(m) if m == "expected value at line 1"));
            assert_eq!(
                e.message(),
                "portfolios.json is damaged and was copied to portfolios.json.bak: expected value at line 1"
            );
        }
        other => panic!("{other:?}"),
    }
}

#[test]
fn a_failed_read_is_reported_as_io() {
    match load_step(StoreRead::Failed("permission denied".into())) {
        StoreStep::Fail(e) => assert_eq!(e.message(), "store io: permission denied"),
        other => panic!("{other:?}"),
    }
}
