use inkdrop::color::{invert, max_primary, to_black, to_cmyk, Density};

fn share(num: u8, den: u8) -> Density {
    Density { num, den }
}

#[test]
fn black_asks_for_all_the_black_and_no_colour() {
    let (c, m, y, k) = to_cmyk(0, 0, 0);
    assert_eq!(c.num, 0);
    assert_eq!(m.num, 0);
    assert_eq!(y.num, 0);
    assert_eq!(k.num, k.den);
    assert_eq!((c, m, y, k), (share(0, 255), share(0, 255), share(0, 255), share(255, 255)));
}

#[test]
fn white_asks_for_no_ink() {
    assert_eq!(
        to_cmyk(255, 255, 255),
        (share(0, 255), share(0, 255), share(0, 255), share(0, 255))
    );
    assert_eq!(to_black(255, 255, 255), share(0, 255));
}

#[test]
fn colours_are_what_a_primary_lacks_of_the_largest() {
    // black is 1 - 200/255; cyan is (1 - 100/255 - black) / (1 - black) = 100/200
    assert_eq!(
        to_cmyk(100, 200, 50),
        (share(100, 200), share(0, 200), share(150, 200), share(55, 255))
    );
    assert_eq!(
        to_cmyk(255, 0, 0),
        (share(0, 255), share(255, 255), share(255, 255), share(0, 255))
    );
    assert_eq!(to_cmyk(1, 1, 0), (share(0, 1), share(0, 1), share(1, 1), share(254, 255)));
}

#[test]
fn black_is_what_the_largest_primary_lacks_of_255() {
    assert_eq!(to_black(0, 0, 0), share(255, 255));
    assert_eq!(to_black(10, 20, 30), share(225, 255));
    assert_eq!(to_black(30, 20, 10), share(225, 255));
    assert_eq!(to_black(20, 30, 10), share(225, 255));
    assert_eq!(max_primary(7, 7, 7), 7);
    assert_eq!(max_primary(1, 2, 3), 3);
    assert_eq!(max_primary(3, 2, 1), 3);
    assert_eq!(max_primary(2, 3, 1), 3);
}

#[test]
fn inverting_leaves_what_an_ink_does_not_cover() {
    assert_eq!(
        invert(to_cmyk(100, 200, 50)),
        vec![share(100, 200), share(200, 200), share(50, 200), share(200, 255)]
    );
    assert_eq!(
        invert(to_cmyk(0, 0, 0)),
        vec![share(255, 255), share(255, 255), share(255, 255), share(0, 255)]
    );
}

#[test]
fn the_inks_give_the_pixel_back() {
    for r in (0..=255u8).step_by(5) {
        for g in (0..=255u8).step_by(3) {
            for b in (0..=255u8).step_by(17) {
                let paper = invert(to_cmyk(r, g, b));
                let key = &paper[3];
                for (colour, v) in [(&paper[0], r), (&paper[1], g), (&paper[2], b)] {
                    // (1 - colour) * (1 - black) == v / 255
                    assert_eq!(
                        colour.num as u64 * key.num as u64 * 255,
                        v as u64 * colour.den as u64 * key.den as u64
                    );
                }
                assert_eq!(key.num, r.max(g).max(b));
                assert_eq!(key.den, 255);
                for d in &paper {
                    assert!(d.den > 0 && d.num <= d.den);
                }
            }
        }
    }
}
