use surreal_id::errors::IdError;
use surreal_id::parser::parse;
use surreal_id::parser::render_with_delimiters;
use surreal_id::parser::render_without_delimiters;

const USERS_TABLE: &str = "users";

#[test]
fn id_with_brackets() {
    let id = "users:⟨fa77edc3-56ed-4208-9e0b-c0b1c32e2d34⟩";
    let (_, inner) = parse(id, USERS_TABLE).unwrap();
    assert_eq!(
        render_with_delimiters(&inner),
        "⟨fa77edc3-56ed-4208-9e0b-c0b1c32e2d34⟩",
    );
}

#[test]
fn id_without_brackets() {
    let id = "users:⟨fa77edc3-56ed-4208-9e0b-c0b1c32e2d34⟩";
    let (_, inner) = parse(id, USERS_TABLE).unwrap();
    let stored = render_with_delimiters(&inner);
    assert_eq!(
        render_without_delimiters(&stored),
        "fa77edc3-56ed-4208-9e0b-c0b1c32e2d34",
    );
}

#[test]
fn table_part_returns_correct_table() {
    let id = "users:⟨fa77edc3-56ed-4208-9e0b-c0b1c32e2d34⟩";
    let result = parse(id, USERS_TABLE);
    assert!(result.is_ok());
    assert_eq!(result.unwrap().0, USERS_TABLE);
}

#[test]
fn valid_id_and_table_creates_user_id_successfully() {
    let id = "users:⟨fa77edc3-56ed-4208-9e0b-c0b1c32e2d34⟩";
    let result = parse(id, USERS_TABLE);
    assert!(result.is_ok());
    if let Ok((table, inner)) = result {
        assert_eq!(table, USERS_TABLE);
        assert_eq!(
            render_with_delimiters(&inner),
            "⟨fa77edc3-56ed-4208-9e0b-c0b1c32e2d34⟩"
        );
    }
}

#[test]
fn invalid_table_name_returns_invalid_table_error() {
    let fx_table_name = "invalid_table";
    let id = format!("{}:⟨fa77edc3-56ed-4208-9e0b-c0b1c32e2d34⟩", fx_table_name);
    let result = parse(&id, USERS_TABLE);
    assert_eq!(
        result,
        Err(IdError::InvalidTable(
            USERS_TABLE.to_string(),
            fx_table_name.to_string()
        ))
    );
}

#[test]
fn invalid_id_format_returns_error() {
    let invalid_ids = vec![
        "users:fa77edc3-56ed-4208-9e0b-c0b1c32e2d34", // Missing brackets
        "users:⟨fa77edc3-56ed-4208-9e0b-c0b1c32e2d34", // Missing closing bracket
        "users:fa77edc3-56ed-4208-9e0b-c0b1c32e2d34⟩", // Missing opening bracket
        "users:⟨fa77edc3-56ed-4208-9e0b-c0b1c32e2d34⟩ ", // Trailing space
        "users:⟨fa77edc3⟩56ed⟩",                      // Multiple ⟩
    ];

    for id in invalid_ids {
        let result = parse(id, USERS_TABLE);
        assert_eq!(result, Err(IdError::InvalidIdFormat(id.to_string())));
    }
}

#[test]
fn valid_id_without_table_uses_default_table_and_succeeds() {
    let fx_input_id = "fa77edc3-56ed-4208-9e0b-c0b1c32e2d34";
    let result = parse(fx_input_id, USERS_TABLE);
    let expected_id = format!("⟨{}⟩", fx_input_id);
    assert!(result.is_ok());
    if let Ok((table, inner)) = result {
        assert_eq!(table, USERS_TABLE);
        assert_eq!(render_with_delimiters(&inner), expected_id);
    }
}

#[test]
fn empty_id_returns_id_cannot_be_empty_error() {
    let id = "";
    let result = parse(id, USERS_TABLE);
    assert_eq!(result, Err(IdError::IdCannotBeEmpty));
}

#[test]
fn valid_table_but_empty_id_part_returns_id_cannot_be_empty_error() {
    let full_id = format!("{}:⟨{}⟩", USERS_TABLE, "");
    let result = parse(&full_id, USERS_TABLE);
    assert!(matches!(result, Err(IdError::IdCannotBeEmpty)));
}

#[test]
fn empty_bracketed_payload_under_short_table_is_empty_error() {
    let result = parse("t:⟨⟩", "t");
    assert_eq!(result, Err(IdError::IdCannotBeEmpty));
}

#[test]
fn colon_with_empty_table_part_and_bare_id_is_malformed() {
    let result = parse(":abc", USERS_TABLE);
    assert_eq!(result, Err(IdError::InvalidIdFormat(":abc".to_string())));
}

#[test]
fn simple_qualified_id_parses_to_table_and_inner() {
    let result = parse("users:⟨abc⟩", USERS_TABLE);
    assert_eq!(result, Ok(("users".to_string(), "abc".to_string())));
}

#[test]
fn bare_id_without_colon_or_brackets_is_accepted_verbatim() {
    let result = parse("abc", USERS_TABLE);
    assert_eq!(result, Ok(("users".to_string(), "abc".to_string())));
}

#[test]
fn bracket_wrapped_id_without_colon_uses_default_table() {
    let result = parse("⟨abc⟩", USERS_TABLE);
    assert_eq!(result, Ok(("users".to_string(), "abc".to_string())));
}

#[test]
fn bare_id_with_stray_delimiters_is_accepted_verbatim() {
    let result = parse("fa⟨⟨77", USERS_TABLE);
    assert_eq!(result, Ok(("users".to_string(), "fa⟨⟨77".to_string())));
}

#[test]
fn inner_id_may_contain_a_colon() {
    let result = parse("users:⟨a:b⟩", USERS_TABLE);
    assert_eq!(result, Ok(("users".to_string(), "a:b".to_string())));
}

#[test]
fn delimiter_inside_table_segment_is_malformed() {
    let id = "us⟨ers:⟨abc⟩";
    let result = parse(id, USERS_TABLE);
    assert_eq!(result, Err(IdError::InvalidIdFormat(id.to_string())));
}

#[test]
fn close_delimiter_before_colon_is_malformed() {
    let id = "us⟩ers:abc";
    let result = parse(id, USERS_TABLE);
    assert_eq!(result, Err(IdError::InvalidIdFormat(id.to_string())));
}

#[test]
fn render_with_delimiters_wraps_the_payload() {
    assert_eq!(render_with_delimiters("abc"), "⟨abc⟩");
    assert_eq!(render_with_delimiters(""), "⟨⟩");
}

#[test]
fn render_without_delimiters_drops_table_prefix_and_delimiters() {
    assert_eq!(render_without_delimiters("users:⟨abc⟩"), "abc");
    assert_eq!(render_without_delimiters("⟨abc⟩"), "abc");
    assert_eq!(render_without_delimiters("abc"), "abc");
    assert_eq!(render_without_delimiters(""), "");
}

#[test]
fn render_without_delimiters_filters_every_delimiter_occurrence() {
    assert_eq!(render_without_delimiters("a⟨b⟩c⟨"), "abc");
}

#[test]
fn round_trip_reproduces_the_bracketed_segment() {
    let input = "orders:⟨x-1⟩";
    let (_, inner) = parse(input, "orders").unwrap();
    assert_eq!(render_with_delimiters(&inner), "⟨x-1⟩");
}
