use pixelveil::errors::{
    append_decimal, no_message_plane_reason, remnant_too_long_reason, SteganographyError,
};

#[test]
fn test_insufficient_plane_number_message() {
    let e = SteganographyError::InsufficientPlaneNumber(40, 17);
    assert_eq!(
        e.message(),
        "Tried to do an operation that requires at least 40 planes, got 17"
    );
    let e = SteganographyError::InsufficientPlaneNumber(0, usize::MAX);
    assert_eq!(
        e.message(),
        format!(
            "Tried to do an operation that requires at least 0 planes, got {}",
            usize::MAX
        )
    );
}

#[test]
fn test_invalid_iv_data_message() {
    let e = SteganographyError::InvalidIVData(String::from("too long"));
    assert_eq!(e.message(), "The extracted IV data is invalid: too long");
    let e = SteganographyError::InvalidIVData(remnant_too_long_reason(65));
    assert_eq!(
        e.message(),
        "The extracted IV data is invalid: Message remnant IV can't be more than the amount of \
         bits per plane (65 > 64)"
    );
    assert_eq!(no_message_plane_reason(), "Message length IV can't be zero planes");
}

#[test]
fn test_append_decimal() {
    for n in [0usize, 7, 9, 10, 11, 99, 100, 101, 1000, 65832, 4294967295] {
        let mut text = String::from("n = ");
        append_decimal(&mut text, n);
        assert_eq!(text, format!("n = {n}"));
    }
}
