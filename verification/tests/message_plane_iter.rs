use pixelveil::bpcs::message_plane_iter::{get_bytes_per_plane_u8s, MessagePlanesIter};

#[test]
fn test_message_plane_iter_consistency() {
    let bytes = vec![
        0b00000000u8,
        0b00100000u8,
        0b11111111u8,
        0b10100101u8,
        0b00101011u8,
        0b11011001u8,
        0b11110111u8,
        0b00001101u8,
        0b00111101u8,
    ];

    let mut plane_iter = MessagePlanesIter::new(&bytes);

    let mut next = plane_iter.next().unwrap();
    next.conjugate(); // next is supposed to be automatically conjugated on the .next(), so we conjugate it again to get the original data
    assert_eq!(
        next.bits,
        [
            [false, false, false, false, false, false, false, false],
            [false, false, true, false, false, false, false, false],
            [true, true, true, true, true, true, true, true],
            [true, false, true, false, false, true, false, true],
            [false, false, true, false, true, false, true, true],
            [true, true, false, true, true, false, false, true],
            [true, true, true, true, false, true, true, true],
            [false, false, false, false, true, true, false, true],
        ]
    );

    let next = plane_iter.next().unwrap();
    // the 2nd bit plane might have been conjugated, depending on how the bits were filled to fit a plane, so we need the
    //  first row (the data bits) to be equal to either the regular or conjugated version of itself
    assert!(
        (next.bits[0] == [false, false, true, true, true, true, false, true])
            ^ (next.bits[0] == [false, true, true, false, true, false, false, false])
    );

    let next = plane_iter.next();
    assert!(next.is_none());

    assert_eq!(plane_iter.conjugation_map()[0], true);
}

#[test]
fn test_message_planes_are_complex_and_recorded() {
    let bytes: Vec<u8> = (0..64u32).map(|i| (i * 37 + 11) as u8).chain([0u8; 16]).collect();
    let mut plane_iter = MessagePlanesIter::new(&bytes);
    let mut count = 0;
    while let Some(mut plane) = plane_iter.next() {
        assert!(plane.changes() >= 56);
        let conjugated = plane_iter.conjugation_map()[count];
        if conjugated {
            plane.conjugate();
            assert!(plane.changes() < 56);
        }
        assert_eq!(&plane.export_to_u8s()[..], &bytes[8 * count..8 * count + 8]);
        count += 1;
    }
    assert_eq!(count, 10);
    assert_eq!(plane_iter.position, 80);
    let map = plane_iter.into_conjugation_map();
    assert_eq!(map.len(), 10);
    assert!(map[8] && map[9]);
}

#[test]
fn test_message_plane_iter_of_nothing() {
    let bytes: Vec<u8> = Vec::new();
    let mut plane_iter = MessagePlanesIter::new(&bytes);
    assert!(plane_iter.next().is_none());
    assert!(plane_iter.conjugation_map().is_empty());
}

#[test]
fn test_bytes_per_plane_chunks() {
    let bytes: Vec<u8> = (1..=11).collect();
    let mut position = 0;
    assert_eq!(
        get_bytes_per_plane_u8s(&bytes, &mut position).unwrap(),
        vec![1, 2, 3, 4, 5, 6, 7, 8]
    );
    assert_eq!(position, 8);
    let last = get_bytes_per_plane_u8s(&bytes, &mut position).unwrap();
    assert_eq!(last.len(), 8);
    assert_eq!(&last[..3], &[9, 10, 11]);
    assert!(last[3..].iter().all(|b| *b < 255));
    assert_eq!(position, 11);
    assert!(get_bytes_per_plane_u8s(&bytes, &mut position).is_none());
    assert_eq!(position, 11);
}
