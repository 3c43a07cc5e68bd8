use smart_calendar::dither::floyd_steinberg_dither;

#[test]
fn single_pixel_threshold() {
    assert_eq!(floyd_steinberg_dither(&[200], 1, 1), vec![true]);
    assert_eq!(floyd_steinberg_dither(&[127], 1, 1), vec![false]);
    assert_eq!(floyd_steinberg_dither(&[128], 1, 1), vec![true]);
}

#[test]
fn error_diffuses_to_the_right() {
    // first pixel quantizes up (error -127), handing -55 to its neighbor:
    // 128 would have quantized up on its own, 72 - 55 = ... the neighbor
    // sees 128 - 55 = 73 and stays dark
    assert_eq!(floyd_steinberg_dither(&[128, 128], 2, 1), vec![true, false]);
}

#[test]
fn error_diffuses_downward() {
    // 127 quantizes down (error 127), handing 5/16ths (39) to the pixel
    // below: 100 + 39 = 139 quantizes up
    assert_eq!(floyd_steinberg_dither(&[127, 100], 1, 2), vec![false, true]);
}

#[test]
fn exact_levels_leave_no_error() {
    assert_eq!(
        floyd_steinberg_dither(&[255, 0, 0, 255], 2, 2),
        vec![true, false, false, true]
    );
}

#[test]
fn empty_frame() {
    assert_eq!(floyd_steinberg_dither(&[], 0, 0), Vec::<bool>::new());
    assert_eq!(floyd_steinberg_dither(&[], 3, 0), Vec::<bool>::new());
}
