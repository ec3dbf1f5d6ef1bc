use samanlainen::{
    check_size, compare_entries, content_digest, get_directories, parse_bytes, parse_max_bytes,
    parse_min_bytes, parse_scansize_bytes, validate_settings, ConfigError, ContentHasher,
    DirSortOrder, Precedence, ResolvedRoot, Settings, SizeError, SortKey,
};

fn root(path: &str, is_directory: bool) -> ResolvedRoot {
    ResolvedRoot { path: path.as_bytes().to_vec(), is_directory }
}

fn key(inode: u64, name: &str, depth: usize) -> SortKey {
    SortKey { inode, name: name.as_bytes().to_vec(), depth }
}

#[test]
fn sizes_are_read_with_their_units() {
    assert_eq!(parse_min_bytes("1B"), Ok(1));
    assert_eq!(parse_max_bytes("1EiB"), Ok(1 << 60));
    assert_eq!(parse_scansize_bytes("1MiB"), Ok(1048576));
    assert_eq!(parse_min_bytes("10 KB"), Ok(10000));
    assert_eq!(parse_min_bytes("0.2 MiB"), Ok(209715));
    assert_eq!(parse_min_bytes("20000"), Ok(20000));
    assert_eq!(parse_bytes("2ki", 2048), Ok(2048));
}

#[test]
fn text_that_is_no_size_is_invalid() {
    assert_eq!(parse_min_bytes("^_^"), Err(SizeError::Invalid));
    assert_eq!(parse_min_bytes(""), Err(SizeError::Invalid));
    assert_eq!(parse_max_bytes("12 parsecs"), Err(SizeError::Invalid));
    assert_eq!(parse_scansize_bytes("18446744073709551616"), Err(SizeError::Invalid));
}

#[test]
fn long_texts_are_read_like_short_ones() {
    assert_eq!(parse_min_bytes("000000000000000000001"), Ok(1));
    assert_eq!(parse_scansize_bytes("1.000000000000000000000 KB"), Ok(1000));
    assert_eq!(parse_max_bytes("0018446744073709551615"), Ok(u64::MAX));
    assert_eq!(parse_min_bytes("18446744073709551615"), Ok(u64::MAX));
    assert_eq!(parse_min_bytes("18446744073709551615.4"), Ok(u64::MAX));
    assert_eq!(parse_min_bytes("1_000_000_000_000_000_000_000e-3"), Ok(1_000_000_000_000_000_000));
    assert_eq!(parse_min_bytes("184467440737095516154"), Err(SizeError::Invalid));
    assert_eq!(parse_min_bytes("0.000000000000000000001"), Err(SizeError::TooSmall));
}

#[test]
fn mantissa_that_rounds_past_the_largest_number_is_invalid() {
    assert_eq!(parse_min_bytes("184467440737095516155"), Err(SizeError::Invalid));
    assert_eq!(parse_min_bytes("18446744073709551615.5"), Err(SizeError::Invalid));
    assert_eq!(parse_max_bytes("0_18446744073709551615 9 KB"), Err(SizeError::Invalid));
    assert_eq!(parse_max_bytes("184467440737095516159e-2"), Err(SizeError::Invalid));
}

#[test]
fn sizes_below_the_least_are_too_small() {
    assert_eq!(parse_min_bytes("0"), Err(SizeError::TooSmall));
    assert_eq!(parse_scansize_bytes("0 MiB"), Err(SizeError::TooSmall));
    assert_eq!(parse_max_bytes("0"), Ok(0));
    assert_eq!(parse_bytes("9", 10), Err(SizeError::TooSmall));
    assert_eq!(parse_bytes("10", 10), Ok(10));
}

#[test]
fn check_size_follows_the_parsed_value() {
    assert_eq!(check_size(None, 1), Err(SizeError::Invalid));
    assert_eq!(check_size(Some(0), 1), Err(SizeError::TooSmall));
    assert_eq!(check_size(Some(1), 1), Ok(1));
    assert_eq!(check_size(Some(0), 0), Ok(0));
}

#[test]
fn sound_settings_are_accepted() {
    assert_eq!(
        validate_settings(1, 1 << 60, 2, 1048576),
        Ok(Settings { minsize: 1, maxsize: 1 << 60, count: 2, scansize: 1048576 })
    );
    assert_eq!(
        validate_settings(100, 0, 3, 1),
        Ok(Settings { minsize: 100, maxsize: 0, count: 3, scansize: 1 })
    );
    assert_eq!(
        validate_settings(5, 5, 2, 1),
        Ok(Settings { minsize: 5, maxsize: 5, count: 2, scansize: 1 })
    );
}

#[test]
fn unsound_settings_are_refused() {
    assert_eq!(validate_settings(0, 10, 2, 1), Err(ConfigError::ZeroMinimum));
    assert_eq!(validate_settings(1, 10, 1, 1), Err(ConfigError::ThresholdBelowTwo));
    assert_eq!(validate_settings(1, 10, 0, 1), Err(ConfigError::ThresholdBelowTwo));
    assert_eq!(validate_settings(1, 10, 2, 0), Err(ConfigError::ZeroScanWindow));
    assert_eq!(validate_settings(11, 10, 2, 1), Err(ConfigError::MinimumAboveMaximum));
    assert_eq!(validate_settings(0, 0, 0, 0), Err(ConfigError::ZeroMinimum));
}

#[test]
fn repeated_roots_collapse_to_the_first() {
    let roots = vec![root("/a", true), root("/b", true), root("/a", true), root("/c", true), root("/b", true)];
    assert_eq!(get_directories(&roots), Ok(vec![0, 1, 3]));
    assert_eq!(get_directories(&Vec::new()), Ok(vec![]));
}

#[test]
fn a_root_that_is_no_directory_ends_the_selection() {
    let roots = vec![root("/a", true), root("/file", false), root("/other", false)];
    assert_eq!(get_directories(&roots), Err(1));
    let roots = vec![root("/a", true), root("/a", false), root("/b", true)];
    assert_eq!(get_directories(&roots), Ok(vec![0, 2]));
}

#[test]
fn entries_are_ordered_by_inode() {
    assert_eq!(
        compare_entries(DirSortOrder::INode, &key(1, "z", 9), &key(2, "a", 0)),
        Precedence::Before
    );
    assert_eq!(
        compare_entries(DirSortOrder::INode, &key(3, "a", 0), &key(2, "z", 9)),
        Precedence::After
    );
    assert_eq!(
        compare_entries(DirSortOrder::INode, &key(2, "a", 0), &key(2, "z", 9)),
        Precedence::Same
    );
}

#[test]
fn entries_are_ordered_by_name() {
    let order = DirSortOrder::Filename;
    assert_eq!(compare_entries(order, &key(9, "abc", 0), &key(1, "abd", 0)), Precedence::Before);
    assert_eq!(compare_entries(order, &key(1, "b", 0), &key(9, "abd", 0)), Precedence::After);
    assert_eq!(compare_entries(order, &key(9, "ab", 0), &key(1, "abc", 0)), Precedence::Before);
    assert_eq!(compare_entries(order, &key(9, "abc", 0), &key(1, "ab", 0)), Precedence::After);
    assert_eq!(compare_entries(order, &key(9, "abc", 1), &key(1, "abc", 2)), Precedence::Same);
    assert_eq!(compare_entries(order, &key(9, "", 1), &key(1, "", 2)), Precedence::Same);
    assert_eq!(compare_entries(order, &key(9, "", 1), &key(1, "a", 2)), Precedence::Before);
}

#[test]
fn entries_are_ordered_by_depth() {
    let order = DirSortOrder::Depth;
    assert_eq!(compare_entries(order, &key(9, "z", 1), &key(1, "a", 2)), Precedence::Before);
    assert_eq!(compare_entries(order, &key(1, "a", 3), &key(9, "z", 2)), Precedence::After);
    assert_eq!(compare_entries(order, &key(1, "a", 2), &key(9, "z", 2)), Precedence::Same);
}

#[test]
fn digest_of_pieces_is_digest_of_the_whole() {
    let mut hasher = ContentHasher::new();
    hasher.update(b"he");
    hasher.update(b"");
    hasher.update(b"llo");
    assert_eq!(
        hasher.finalize(),
        "9b71d224bd62f3785d96d46ad3ea3d73319bfbc2890caadae2dff72519673ca72323c3d99ba5c11d7c7acc6e14b8c5da0c4663475c2e5c3adef46f73bcdec043"
    );
    let mut other = ContentHasher::new();
    other.update(b"hel");
    other.update(b"lo");
    assert_eq!(other.finalize(), content_digest(b"hello"));
    assert_eq!(ContentHasher::new().finalize(), content_digest(b""));
}
