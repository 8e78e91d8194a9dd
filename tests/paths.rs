use json_preprocessor::paths::{make_absolute, parse_usize, ref_chain, PathChunk};

fn key(s: &str) -> PathChunk {
    PathChunk::Key(s.chars().collect())
}

#[test]
fn absolute_path_equivalence() {
    let self_path = vec![key("Foo"), key("Baz")];
    // Target a sibling
    let target_path = vec![PathChunk::Parent, PathChunk::Parent, key("Bar")];
    let new_abs_path = make_absolute(&self_path, &target_path);

    assert_eq!(vec![key("Foo"), key("Bar")], new_abs_path)
}

#[test]
fn base_path_ignored_for_absolute_paths() {
    let self_path = vec![key("Foo"), key("Baz")];
    // Target a sibling
    let target_path = vec![key("Bar")];
    let new_abs_path = make_absolute(&self_path, &target_path);

    assert_eq!(vec![key("Bar")], new_abs_path)
}

#[test]
fn relative_path_starts_at_self() {
    let self_path = vec![key("b")];
    let target = vec![PathChunk::Parent, key("a")];
    assert_eq!(make_absolute(&self_path, &target), vec![key("b"), key("a")]);
    let too_far = vec![PathChunk::Parent, PathChunk::Parent, PathChunk::Parent, key("a")];
    assert_eq!(make_absolute(&self_path, &too_far), vec![key("a")]);
}

#[test]
fn reference_strings() {
    let chain = ref_chain(&".a.[2].(1)".chars().collect()).unwrap();
    assert_eq!(chain, vec![PathChunk::Parent, key("a"), PathChunk::Index(2), PathChunk::Argument(1)]);
    assert_eq!(ref_chain(&"x".chars().collect()).unwrap(), vec![key("x")]);
    assert_eq!(ref_chain(&"".chars().collect()).unwrap(), vec![PathChunk::Parent]);
    assert_eq!(ref_chain(&"..".chars().collect()).unwrap(), vec![PathChunk::Parent, PathChunk::Parent, PathChunk::Parent]);
    assert!(ref_chain(&"a.[x]".chars().collect()).is_none());
    assert!(ref_chain(&"a.[]".chars().collect()).is_none());
}

#[test]
fn index_text() {
    let digits = |s: &str| s.chars().collect::<Vec<char>>();
    assert_eq!(parse_usize(&digits("42")), Some(42));
    assert_eq!(parse_usize(&digits("+7")), Some(7));
    assert_eq!(parse_usize(&digits("")), None);
    assert_eq!(parse_usize(&digits("-1")), None);
    assert_eq!(parse_usize(&digits("99999999999999999999999")), None);
}
