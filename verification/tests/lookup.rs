use ip2country::{AsnDB, Family, IpAddress};

fn push_line(source: &mut Vec<u8>, start: u32, end: u32, code: &str) {
    source.extend_from_slice(format!("{},{},{}\n", start, end, code).as_bytes());
}

/// Seventy-eight ranges that touch one another, from 16777216 to 28311551.
fn example_source() -> Vec<u8> {
    let mut source = Vec::new();
    push_line(&mut source, 16777216, 16842751, "AU");
    push_line(&mut source, 16842752, 16843007, "CN");
    push_line(&mut source, 16843008, 16908287, "AU");
    let mut start: u32 = 16908288;
    for i in 0..74u32 {
        let code = if i % 2 == 0 { "JP" } else { "KR" };
        push_line(&mut source, start, start + 65535, code);
        start += 65536;
    }
    push_line(&mut source, start, 28311551, "TW");
    source
}

fn example_db() -> AsnDB {
    AsnDB::default()
        .load_ipv4_from_reader(&example_source())
        .unwrap()
}

fn gap_source() -> &'static [u8] {
    b"16777216,16777470,AU\n16777472,16777727,CN\n"
}

#[test]
fn test_smoke() {
    let db = AsnDB::default();

    assert_eq!(db.lookup_ipv4(16842752), None);
}

#[test]
fn test_load_db() {
    let db = example_db();

    assert_eq!(db.len_ipv4(), 78);
}

#[test]
fn test_load() {
    let db = AsnDB::default()
        .load(Family::V4, &example_source())
        .unwrap();

    assert_eq!(db.len_ipv4(), 78);
}

#[test]
fn test_lookup() {
    let db = example_db();

    assert_eq!(db.lookup_ipv4(16842752).unwrap(), "CN".as_bytes());
    assert_eq!(db.lookup_ipv4(16843007).unwrap(), "CN".as_bytes());
    assert_eq!(db.lookup_ipv4(16843008).unwrap(), "AU".as_bytes());
}

#[test]
fn lib_test_lookup() {
    let db = AsnDB::default()
        .load(Family::V4, &example_source())
        .unwrap();

    assert_eq!(db.lookup(IpAddress::V4(16842752)).unwrap(), "CN".as_bytes());
    assert_eq!(db.lookup(IpAddress::V4(16843007)).unwrap(), "CN".as_bytes());
    assert_eq!(db.lookup(IpAddress::V4(16843008)).unwrap(), "AU".as_bytes());
}

#[test]
fn test_lookup_fail() {
    let db = example_db();

    assert_eq!(db.lookup_ipv4(16777215).is_none(), true);
}

#[test]
fn test_lookup_last() {
    let db = example_db();

    assert_eq!(db.lookup_ipv4(28311551).unwrap(), "TW".as_bytes());
}

#[test]
fn test_gaps() {
    let db = AsnDB::default().load_ipv4_from_reader(gap_source()).unwrap();

    assert_eq!(db.lookup_ipv4(16777470).unwrap(), "AU".as_bytes());
    assert_eq!(db.lookup_ipv4(16777471), None);
    assert_eq!(db.lookup_ipv4(16777472).unwrap(), "CN".as_bytes());
}

#[test]
fn gap_adds_one_record() {
    let db = AsnDB::default().load_ipv4_from_reader(gap_source()).unwrap();

    assert_eq!(db.len_ipv4(), 3);
}

#[test]
fn small_fixture_round_trip() {
    let source = b"16777216,16842751,AU\n16842752,16843007,CN\n16843008,28311551,AU\n28311552,28311807,TW\n";
    let db = AsnDB::default().load_ipv4_from_reader(source).unwrap();

    assert_eq!(db.len_ipv4(), 4);
    assert_eq!(db.lookup_ipv4(16842752), Some(*b"CN"));
    assert_eq!(db.lookup_ipv4(16843007), Some(*b"CN"));
    assert_eq!(db.lookup_ipv4(16843008), Some(*b"AU"));
    assert_eq!(db.lookup_ipv4(28311551), Some(*b"AU"));
    assert_eq!(db.lookup_ipv4(16777215), None);
    assert_eq!(db.lookup_ipv4(28311552), Some(*b"TW"));
    assert_eq!(db.lookup_ipv4(28311807), Some(*b"TW"));
    assert_eq!(db.lookup_ipv4(28311808), Some(*b"TW"));
    assert_eq!(db.lookup_ipv4(u32::MAX), Some(*b"TW"));
}

#[test]
fn gap_fixture_two_unclassified_addresses() {
    let source = b"16777216,16777469,AU\n16777472,16777600,CN\n";
    let db = AsnDB::default().load_ipv4_from_reader(source).unwrap();

    assert_eq!(db.len_ipv4(), 3);
    assert_eq!(db.lookup_ipv4(16777469), Some(*b"AU"));
    assert_eq!(db.lookup_ipv4(16777470), None);
    assert_eq!(db.lookup_ipv4(16777471), None);
    assert_eq!(db.lookup_ipv4(16777472), Some(*b"CN"));
}

#[test]
fn below_first_start_has_no_code() {
    let db = example_db();

    assert_eq!(db.lookup_ipv4(0), None);
    assert_eq!(db.lookup_ipv4(16777215), None);
    assert_eq!(db.lookup_ipv4(16777216), Some(*b"AU"));
}

#[test]
fn at_and_above_last_start_has_last_code() {
    let source = b"10,19,AA\n20,29,BB\n";
    let db = AsnDB::default().load_ipv4_from_reader(source).unwrap();

    assert_eq!(db.lookup_ipv4(19), Some(*b"AA"));
    assert_eq!(db.lookup_ipv4(20), Some(*b"BB"));
    assert_eq!(db.lookup_ipv4(29), Some(*b"BB"));
    assert_eq!(db.lookup_ipv4(30), Some(*b"BB"));
    assert_eq!(db.lookup_ipv4(u32::MAX), Some(*b"BB"));
}

#[test]
fn single_record_table() {
    let db = AsnDB::default().load_ipv4_from_reader(b"100,200,DE").unwrap();

    assert_eq!(db.len_ipv4(), 1);
    assert_eq!(db.lookup_ipv4(99), None);
    assert_eq!(db.lookup_ipv4(100), Some(*b"DE"));
    assert_eq!(db.lookup_ipv4(201), Some(*b"DE"));
}

#[test]
fn every_start_finds_its_own_record() {
    let db = example_db();
    let mut start: u32 = 16908288;
    for i in 0..74u32 {
        let code = if i % 2 == 0 { *b"JP" } else { *b"KR" };
        assert_eq!(db.lookup_ipv4(start), Some(code));
        assert_eq!(db.lookup_ipv4(start + 65535), Some(code));
        start += 65536;
    }
}

#[test]
fn loading_twice_gives_the_same_answers() {
    let first = example_db();
    let second = example_db();

    for ip in [0u32, 16777215, 16777216, 16842752, 16843007, 16843008, 20000000, 28311551, u32::MAX] {
        assert_eq!(first.lookup_ipv4(ip), second.lookup_ipv4(ip));
    }
}

#[test]
fn families_are_kept_apart() {
    let db = AsnDB::default()
        .load_ipv4_from_reader(b"10,19,AA\n")
        .unwrap()
        .load_ipv6_from_reader(b"10,19,BB\n340282366920938463463374607431768211455,340282366920938463463374607431768211455,CC\n")
        .unwrap();

    assert_eq!(db.len_ipv4(), 1);
    assert_eq!(db.len_ipv6(), 3);
    assert_eq!(db.lookup(IpAddress::V4(15)), Some(*b"AA"));
    assert_eq!(db.lookup(IpAddress::V6(15)), Some(*b"BB"));
    assert_eq!(db.lookup_ipv6(20), None);
    assert_eq!(db.lookup_ipv6(u128::MAX - 1), None);
    assert_eq!(db.lookup_ipv6(u128::MAX), Some(*b"CC"));
    assert_eq!(db.lookup(IpAddress::V6(9)), None);
}

#[test]
fn a_load_replaces_one_table_only() {
    let db = AsnDB::default()
        .load(Family::V6, b"5,6,ZZ\n")
        .unwrap()
        .load(Family::V4, b"1,2,XX\n")
        .unwrap()
        .load(Family::V4, b"3,4,YY\n")
        .unwrap();

    assert_eq!(db.len_ipv4(), 1);
    assert_eq!(db.lookup_ipv4(2), None);
    assert_eq!(db.lookup_ipv4(3), Some(*b"YY"));
    assert_eq!(db.lookup_ipv6(5), Some(*b"ZZ"));
}

#[test]
fn lookup_str_renders_the_code() {
    let db = AsnDB::default().load_ipv4_from_reader(gap_source()).unwrap();

    assert_eq!(db.lookup_str(IpAddress::V4(16777216)), Some(String::from("AU")));
    assert_eq!(db.lookup_str(IpAddress::V4(16777471)), None);
    assert_eq!(db.lookup_str(IpAddress::V4(16777472)), Some(String::from("CN")));
    assert_eq!(db.lookup_str(IpAddress::V4(1)), None);
    assert_eq!(db.lookup_str(IpAddress::V6(16777216)), None);
}

#[test]
fn large_table_answers_at_every_boundary() {
    let mut source = Vec::new();
    for i in 0..50000u32 {
        let code = if i % 2 == 0 { "AA" } else { "BB" };
        push_line(&mut source, 1000 + i * 20, 1000 + i * 20 + 9, code);
    }
    let db = AsnDB::default().load_ipv4_from_reader(&source).unwrap();

    assert_eq!(db.len_ipv4(), 99999);
    assert_eq!(db.lookup_ipv4(999), None);
    for i in 0..50000u32 {
        let code = if i % 2 == 0 { *b"AA" } else { *b"BB" };
        let start = 1000 + i * 20;
        assert_eq!(db.lookup_ipv4(start), Some(code));
        assert_eq!(db.lookup_ipv4(start + 9), Some(code));
        if i < 49999 {
            assert_eq!(db.lookup_ipv4(start + 10), None);
            assert_eq!(db.lookup_ipv4(start + 19), None);
        } else {
            assert_eq!(db.lookup_ipv4(start + 10), Some(code));
        }
    }
}
