use ray_tracer::ppm::{P3, Ppm};

#[test]
fn p3_output() {
    let p3 = P3::new(255, 0, 122);
    assert_eq!(p3.r, 255);
    assert_eq!(p3.g, 0);
    assert_eq!(p3.b, 122);
    assert_eq!(p3.output(), "255 0 122");
    let p3_1 = P3::new(255, 0, 122);
    assert_eq!(p3, p3_1);
    let p3_1 = P3::new(0, 0, 0);
    assert_ne!(p3, p3_1);
}

#[test]
fn ppm() {
    let mut ppm = Ppm::new(3, 2);
    assert_eq!(ppm.width(), 3);
    assert_eq!(ppm.height(), 2);
    assert_eq!(ppm.len(), 6);
    let rows = ppm.rows();
    assert_eq!(rows.len(), 2);
    for p3 in rows.iter().flatten() {
        assert_eq!(*p3, P3::default());
    }
    assert_eq!(
        ppm.output(),
        "P3\n3 2\n255\n0 0 0\n0 0 0\n0 0 0\n0 0 0\n0 0 0\n0 0 0\n"
    );
    let mut rows = ppm.rows();
    for p3 in rows.iter_mut().flatten() {
        p3.r = 255;
        p3.g = 255;
        p3.b = 255;
    }
    ppm.rows_mut(rows);
    let rows = ppm.rows();
    for p3 in rows.iter().flatten() {
        assert_eq!(*p3, P3::new(255, 255, 255));
    }
    assert_eq!(ppm.output(), "P3\n3 2\n255\n255 255 255\n255 255 255\n255 255 255\n255 255 255\n255 255 255\n255 255 255\n");
}

#[test]
fn p3_output_digit_widths() {
    assert_eq!(P3::new(0, 0, 0).output(), "0 0 0");
    assert_eq!(P3::new(7, 42, 255).output(), "7 42 255");
    assert_eq!(P3::new(10, 100, 200).output(), "10 100 200");
    assert_eq!(P3::new(9, 99, 250).output(), "9 99 250");
    assert_eq!(P3::new(1, 20, 103).output(), "1 20 103");
}

#[test]
fn p3_default_is_black() {
    assert_eq!(P3::default(), P3::new(0, 0, 0));
    assert_eq!(P3::default().r, 0);
    assert_eq!(P3::default().g, 0);
    assert_eq!(P3::default().b, 0);
}

#[test]
fn empty_buffer() {
    let ppm = Ppm::new(0, 0);
    assert_eq!(ppm.len(), 0);
    assert!(ppm.is_empty());
    assert_eq!(ppm.rows().len(), 0);
    assert_eq!(ppm.output(), "P3\n0 0\n255\n");
}

#[test]
fn zero_width_buffer() {
    let ppm = Ppm::new(0, 2);
    assert_eq!(ppm.width(), 0);
    assert_eq!(ppm.height(), 2);
    assert_eq!(ppm.len(), 0);
    assert!(ppm.is_empty());
    let rows = ppm.rows();
    assert_eq!(rows.len(), 2);
    for row in &rows {
        assert_eq!(row.len(), 0);
    }
    assert_eq!(ppm.output(), "P3\n0 2\n255\n");
}

#[test]
fn zero_height_buffer() {
    let ppm = Ppm::new(3, 0);
    assert_eq!(ppm.len(), 0);
    assert!(ppm.is_empty());
    assert_eq!(ppm.rows().len(), 0);
    assert_eq!(ppm.output(), "P3\n3 0\n255\n");
}

#[test]
fn buffer_invariant() {
    let ppm = Ppm::new(4, 3);
    assert_eq!(ppm.len(), 4 * 3);
    assert!(!ppm.is_empty());
    let rows = ppm.rows();
    assert_eq!(rows.len(), 3);
    for row in &rows {
        assert_eq!(row.len(), 4);
        for p3 in row {
            assert_eq!(*p3, P3::default());
        }
    }
}

#[test]
fn rows_mut_single_pixel() {
    let mut ppm = Ppm::new(2, 2);
    let mut rows = ppm.rows();
    rows[1][0] = P3::new(1, 2, 3);
    ppm.rows_mut(rows);
    let rows = ppm.rows();
    assert_eq!(rows[0][0], P3::default());
    assert_eq!(rows[0][1], P3::default());
    assert_eq!(rows[1][0], P3::new(1, 2, 3));
    assert_eq!(rows[1][1], P3::default());
    assert_eq!(ppm.output(), "P3\n2 2\n255\n0 0 0\n0 0 0\n1 2 3\n0 0 0\n");
}

#[test]
fn multi_digit_header() {
    let ppm = Ppm::new(12, 10);
    assert_eq!(ppm.len(), 120);
    assert!(ppm.output().starts_with("P3\n12 10\n255\n"));
    let big = Ppm::new(255, 255);
    assert_eq!(big.len(), 65025);
    assert_eq!(big.rows().len(), 255);
    assert!(big.output().starts_with("P3\n255 255\n255\n"));
}
