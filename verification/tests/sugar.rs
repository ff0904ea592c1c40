use cachalot::sugar::{check_shape, FileSize, FnShape, Rejection, StoreArgs, DEFAULT_PAGE_SIZE};

fn shape(is_const: bool, has_abi: bool, is_async: bool, has_receiver: bool) -> FnShape {
    FnShape {
        is_const,
        has_abi,
        is_async,
        has_receiver,
    }
}

#[test]
fn file_size_in_bytes() {
    assert_eq!(FileSize::Bytes(5).size(), 5);
    assert_eq!(FileSize::Kbs(2).size(), 2048);
    assert_eq!(FileSize::Mbs(3).size(), 3 * 1024 * 1024);
    assert_eq!(FileSize::Gbs(4).size(), 4 * 1024 * 1024 * 1024);
    assert_eq!(FileSize::Kbs(0).size(), 0);
}

#[test]
fn file_size_default_is_no_bytes() {
    assert_eq!(FileSize::default().size(), 0);
    assert!(matches!(FileSize::default(), FileSize::Bytes(0)));
}

#[test]
fn size_hints_are_summed() {
    let args = StoreArgs {
        root: Some(String::from(".tests")),
        bytes: FileSize::Bytes(1),
        kbs: FileSize::Kbs(1),
        mbs: FileSize::Mbs(1),
        gbs: FileSize::Gbs(1),
    };
    assert_eq!(args.file_size(), 1 + 1024 + 1048576 + 1073741824);

    let none = StoreArgs {
        root: None,
        bytes: FileSize::default(),
        kbs: FileSize::Kbs(0),
        mbs: FileSize::Mbs(0),
        gbs: FileSize::Gbs(0),
    };
    assert_eq!(none.file_size(), 0);
}

#[test]
fn default_page_size() {
    assert_eq!(DEFAULT_PAGE_SIZE, 1024);
}

#[test]
fn async_functions_are_accepted() {
    assert_eq!(check_shape(&shape(false, false, true, false)), Ok(()));
}

#[test]
fn const_functions_are_rejected() {
    assert_eq!(
        check_shape(&shape(true, false, false, false)),
        Err(Rejection::Const)
    );
    assert_eq!(
        check_shape(&shape(true, true, true, true)),
        Err(Rejection::Const)
    );
}

#[test]
fn foreign_functions_are_rejected() {
    assert_eq!(
        check_shape(&shape(false, true, true, false)),
        Err(Rejection::Abi)
    );
}

#[test]
fn functions_that_are_not_async_are_rejected() {
    assert_eq!(
        check_shape(&shape(false, false, false, false)),
        Err(Rejection::NotAsync)
    );
    assert_eq!(
        check_shape(&shape(false, false, false, true)),
        Err(Rejection::NotAsync)
    );
}

#[test]
fn methods_are_rejected() {
    assert_eq!(
        check_shape(&shape(false, false, true, true)),
        Err(Rejection::Method)
    );
}
