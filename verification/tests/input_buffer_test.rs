use audio_gen::input_buffer::{check_row_index, InputIndexError, InputRows, INPUT_BUFFER_ROW_SIZE};

#[test]
fn test_row_index_check() {
    assert_eq!(INPUT_BUFFER_ROW_SIZE, 256);
    assert_eq!(check_row_index(0), Ok(()));
    assert_eq!(check_row_index(255), Ok(()));
    assert_eq!(check_row_index(256), Err(InputIndexError { index: 256, row_size: 256 }));
}

#[test]
fn test_rows_update() {
    let mut rows = InputRows::new(INPUT_BUFFER_ROW_SIZE);
    assert_eq!(rows.bool.len(), 256);
    assert!(rows.u32.iter().all(|&value| value == 0));
    assert_eq!(rows.update_bool(3, true), Ok(()));
    assert_eq!(rows.update_u32(255, 9), Ok(()));
    assert!(rows.bool[3]);
    assert!(!rows.bool[2]);
    assert_eq!(rows.u32[255], 9);
    assert_eq!(
        rows.update_u32(300, 1),
        Err(InputIndexError { index: 300, row_size: 256 })
    );
    assert_eq!(
        rows.update_bool(256, true),
        Err(InputIndexError { index: 256, row_size: 256 })
    );
    assert_eq!(rows.u32[255], 9);
}
