use fatdir::sfn::ShortNameGenerator;
use fatdir::lfn::lfn_checksum;
use fatdir::path::split_path;

#[test]
fn test_split_path() {
    assert_eq!(split_path("aaa/bbb/ccc"), ("aaa", Some("bbb/ccc")));
    assert_eq!(split_path("aaa/bbb"), ("aaa", Some("bbb")));
    assert_eq!(split_path("aaa"), ("aaa", None));
}

#[test]
fn test_split_path_slashes() {
    assert_eq!(split_path("/aaa/bbb/"), ("aaa", Some("bbb")));
    assert_eq!(split_path("///"), ("", None));
}

#[test]
fn test_generate_short_name() {
    assert_eq!(
        ShortNameGenerator::new("Foo").generate().unwrap().as_slice(),
        "FOO        ".as_bytes()
    );
    assert_eq!(
        ShortNameGenerator::new("Foo.b").generate().unwrap().as_slice(),
        "FOO     B  ".as_bytes()
    );
    assert_eq!(
        ShortNameGenerator::new("Foo.baR").generate().unwrap().as_slice(),
        "FOO     BAR".as_bytes()
    );
    assert_eq!(
        ShortNameGenerator::new("Foo+1.baR").generate().unwrap().as_slice(),
        "FOO_1~1 BAR".as_bytes()
    );
    assert_eq!(
        ShortNameGenerator::new("ver +1.2.text").generate().unwrap().as_slice(),
        "VER_12~1TEX".as_bytes()
    );
    assert_eq!(
        ShortNameGenerator::new(".bashrc.swp").generate().unwrap().as_slice(),
        "BASHRC~1SWP".as_bytes()
    );
}

#[test]
fn test_generate_short_name_dot_names() {
    assert_eq!(
        ShortNameGenerator::new(".").generate().unwrap().as_slice(),
        ".          ".as_bytes()
    );
    assert_eq!(
        ShortNameGenerator::new("..").generate().unwrap().as_slice(),
        "..         ".as_bytes()
    );
}

#[test]
fn test_short_name_checksum_overflow() {
    let chars: Vec<char> = "\u{FF5A}\u{FF5A}\u{FF5A}\u{FF5A}".chars().collect();
    ShortNameGenerator::checksum(&chars);
}

#[test]
fn test_short_name_checksum_value() {
    let chars: Vec<char> = "TextFile.Mine.txt".chars().collect();
    assert_eq!(ShortNameGenerator::checksum(&chars), 0x527D);
    let chars: Vec<char> = "x.txt".chars().collect();
    assert_eq!(ShortNameGenerator::checksum(&chars), 0x40DA);
    let chars: Vec<char> = "\u{FF5A}\u{FF5A}\u{FF5A}\u{FF5A}".chars().collect();
    assert_eq!(ShortNameGenerator::checksum(&chars), 0xDEC8);
}

#[test]
fn test_lfn_checksum_overflow() {
    lfn_checksum(&vec![
        0xFFu8, 0xFFu8, 0xFFu8, 0xFFu8, 0xFFu8, 0xFFu8, 0xFFu8, 0xFFu8, 0xFFu8, 0xFFu8, 0xFFu8,
    ]);
}

#[test]
fn test_lfn_checksum_value() {
    assert_eq!(lfn_checksum(&"HELLO   TXT".as_bytes().to_vec()), 0xF1);
    assert_eq!(lfn_checksum(&vec![0xFFu8; 11]), 0xFE);
}

#[test]
fn test_generate_short_name_collisions_long() {
    let mut buf: Vec<u8>;
    let mut gen = ShortNameGenerator::new("TextFile.Mine.txt");
    buf = gen.generate().unwrap();
    assert_eq!(buf.as_slice(), "TEXTFI~1TXT".as_bytes());
    gen.add_existing(&buf);
    buf = gen.generate().unwrap();
    assert_eq!(buf.as_slice(), "TEXTFI~2TXT".as_bytes());
    gen.add_existing(&buf);
    buf = gen.generate().unwrap();
    assert_eq!(buf.as_slice(), "TEXTFI~3TXT".as_bytes());
    gen.add_existing(&buf);
    buf = gen.generate().unwrap();
    assert_eq!(buf.as_slice(), "TEXTFI~4TXT".as_bytes());
    gen.add_existing(&buf);
    buf = gen.generate().unwrap();
    assert_eq!(buf.as_slice(), "TE527D~1TXT".as_bytes());
    gen.add_existing(&buf);
    buf = gen.generate().unwrap();
    assert_eq!(buf.as_slice(), "TE527D~2TXT".as_bytes());
}

#[test]
fn test_generate_short_name_collisions_short() {
    let mut buf: Vec<u8>;
    let mut gen = ShortNameGenerator::new("x.txt");
    buf = gen.generate().unwrap();
    assert_eq!(buf.as_slice(), "X       TXT".as_bytes());
    gen.add_existing(&buf);
    buf = gen.generate().unwrap();
    assert_eq!(buf.as_slice(), "X~1     TXT".as_bytes());
    gen.add_existing(&buf);
    buf = gen.generate().unwrap();
    assert_eq!(buf.as_slice(), "X~2     TXT".as_bytes());
    gen.add_existing(&buf);
    buf = gen.generate().unwrap();
    assert_eq!(buf.as_slice(), "X~3     TXT".as_bytes());
    gen.add_existing(&buf);
    buf = gen.generate().unwrap();
    assert_eq!(buf.as_slice(), "X~4     TXT".as_bytes());
    gen.add_existing(&buf);
    buf = gen.generate().unwrap();
    assert_eq!(buf.as_slice(), "X40DA~1 TXT".as_bytes());
    gen.add_existing(&buf);
    buf = gen.generate().unwrap();
    assert_eq!(buf.as_slice(), "X40DA~2 TXT".as_bytes());
}

#[test]
fn test_generate_exhausted() {
    // all nine checksum-form digits and four long-prefix digits taken
    let mut gen = ShortNameGenerator::new("x.txt");
    let first = gen.generate().unwrap();
    gen.add_existing(&first);
    for d in 1..5u8 {
        let mut name = "X~_     TXT".as_bytes().to_vec();
        name[2] = b'0' + d;
        gen.add_existing(&name);
    }
    for d in 1..10u8 {
        let mut name = "X40DA~_ TXT".as_bytes().to_vec();
        name[6] = b'0' + d;
        gen.add_existing(&name);
    }
    assert_eq!(gen.generate(), Err(fatdir::Error::AlreadyExists));
}
