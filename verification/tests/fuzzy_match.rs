use emacs_native::fuzzy_match::heat_map;

#[test]
fn test_heat_map1() {
    let mut v = Vec::new();
    heat_map("foo", &[], &mut v);
    assert_eq!(v, vec![84, -2, -2]);
}

#[test]
fn test_heat_map2() {
    let mut v = Vec::new();
    heat_map("bar", &[], &mut v);
    assert_eq!(v, vec![84, -2, -2]);
}

#[test]
fn test_heat_map3() {
    let mut v = Vec::new();
    heat_map("foo.bar", &[], &mut v);
    assert_eq!(v, vec![83, -3, -4, -5, 35, -6, -6]);
}

#[test]
fn test_heat_map4() {
    let mut v = Vec::new();
    heat_map("foo/bar/baz", &[], &mut v);
    assert_eq!(v, vec![82, -4, -5, -6, 79, -7, -8, -9, 76, -10, -10]);
}

#[test]
fn test_heat_map5() {
    let mut v = Vec::new();
    heat_map("foo/bar/baz", &['/'], &mut v);
    assert_eq!(v, vec![41, -45, -46, -47, 39, -47, -48, -49, 79, -7, -7]);
}

#[test]
fn test_heat_map6() {
    let mut v = Vec::new();
    heat_map("foo/bar+quux/fizz.buzz/frobnicate/frobulate", &[], &mut v);
    assert_eq!(
        v,
        vec![
            78, -8, -9, -10, 75, -11, -12, -13, 72, -14, -15, -16, -17, 69, -17, -18, -19, -20,
            21, -20, -21, -22, -23, 63, -23, -24, -25, -26, -27, -28, -29, -30, -31, -32, 60, -26,
            -27, -28, -29, -30, -31, -32, -32
        ]
    );
}

#[test]
fn test_heat_map7() {
    let mut v = Vec::new();
    heat_map("foo/bar+quux/fizz.buzz/frobnicate/frobulate", &['/'], &mut v);
    assert_eq!(
        v,
        vec![
            37, -49, -50, -51, 35, -51, -52, -53, 32, -54, -55, -56, -57, 36, -50, -51, -52, -53,
            -12, -53, -54, -55, -56, 37, -49, -50, -51, -52, -53, -54, -55, -56, -57, -58, 77, -9,
            -10, -11, -12, -13, -14, -15, -15
        ]
    );
}

#[test]
fn test_heat_map7a() {
    let mut v = Vec::new();
    heat_map("foo/bar+quux/fizz.buzz", &['/'], &mut v);
    assert_eq!(
        v,
        vec![
            41, -45, -46, -47, 39, -47, -48, -49, 36, -50, -51, -52, -53, 78, -8, -9, -10, -11,
            30, -11, -12, -12
        ]
    );
}

#[test]
fn test_heat_map8() {
    let mut v = Vec::new();
    heat_map("foo/bar+quux/fizz.buzz//frobnicate/frobulate", &['/'], &mut v);
    assert_eq!(
        v,
        vec![
            35, -51, -52, -53, 33, -53, -54, -55, 30, -56, -57, -58, -59, 34, -52, -53, -54, -55,
            -14, -55, -56, -57, -58, -50, 36, -50, -51, -52, -53, -54, -55, -56, -57, -58, -59,
            76, -10, -11, -12, -13, -14, -15, -16, -16
        ]
    );
}

#[test]
fn test_heat_map9() {
    let mut v = Vec::new();
    heat_map("foo/bar+quux/fizz.buzz//frobnicate/frobulate", &['/', 'u'], &mut v);
    assert_eq!(
        v,
        vec![
            27, -59, -60, -61, 25, -61, -62, -63, 22, -64, -59, -58, -58, 28, -58, -59, -60, -61,
            -20, -61, -56, -56, -56, -55, 31, -55, -56, -57, -58, -59, -60, -61, -62, -63, -64,
            72, -14, -15, -16, -17, -52, -52, -52, -51
        ]
    );
}

#[test]
fn test_heat_map10() {
    let mut v = Vec::new();
    heat_map("foo/barQuux/fizzBuzz//frobnicate/frobulate", &[], &mut v);
    assert_eq!(
        v,
        vec![
            80, -6, -7, -8, 77, -9, -10, 74, -12, -13, -14, -15, 71, -15, -16, -17, 68, -18, -19,
            -20, -21, -22, 65, -21, -22, -23, -24, -25, -26, -27, -28, -29, -30, 62, -24, -25,
            -26, -27, -28, -29, -30, -30
        ]
    );
}

#[test]
fn test_heat_map11() {
    let mut v = Vec::new();
    heat_map("foo//bar", &[], &mut v);
    assert_eq!(v, vec![83, -3, -4, -5, -6, 80, -6, -6]);
}

#[test]
fn test_heat_map12() {
    let mut v = Vec::new();
    heat_map("foo//bar", &['/'], &mut v);
    assert_eq!(v, vec![41, -45, -46, -47, -46, 79, -7, -7]);
}

#[test]
fn heat_map_empty_string_clears_the_map() {
    let mut v = vec![5, 6, 7];
    heat_map("", &[], &mut v);
    assert_eq!(v, Vec::<i16>::new());
}

#[test]
fn heat_map_reuses_the_buffer() {
    let mut v = Vec::new();
    heat_map("foo/bar/baz", &[], &mut v);
    heat_map("foo", &[], &mut v);
    assert_eq!(v, vec![84, -2, -2]);
}
