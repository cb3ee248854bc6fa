use fung::dotenv::parse_dotenv;

#[test]
fn parse_dotenv_reads_simple_assignment() {
    assert_eq!(
        parse_dotenv("VITE_SUPABASE_URL=https://example.supabase.co"),
        vec![(
            "VITE_SUPABASE_URL".to_owned(),
            "https://example.supabase.co".to_owned()
        )]
    );
}

#[test]
fn parse_dotenv_skips_blank_lines_and_comments() {
    let contents = "\n# a comment\nFUNG_SUPABASE_URL=https://example.supabase.co\n\n";
    assert_eq!(
        parse_dotenv(contents),
        vec![(
            "FUNG_SUPABASE_URL".to_owned(),
            "https://example.supabase.co".to_owned()
        )]
    );
}

#[test]
fn parse_dotenv_skips_empty_values_like_the_checked_in_env() {
    assert_eq!(
        parse_dotenv("VITE_SUPABASE_URL=\nVITE_SUPABASE_ANON_KEY="),
        Vec::<(String, String)>::new()
    );
}

#[test]
fn parse_dotenv_trims_wrapping_quotes_and_whitespace() {
    assert_eq!(
        parse_dotenv("  FUNG_SUPABASE_ANON_KEY = \"anon-key-value\"  "),
        vec![(
            "FUNG_SUPABASE_ANON_KEY".to_owned(),
            "anon-key-value".to_owned()
        )]
    );
}

#[test]
fn parse_dotenv_ignores_malformed_lines_without_an_equals_sign() {
    assert_eq!(parse_dotenv("not-a-valid-line"), Vec::new());
}

#[test]
fn a_lone_quote_is_kept_and_later_assignments_follow_in_order() {
    assert_eq!(
        parse_dotenv("A=\"\r\nB = two words \n=orphan\n#C=3\nD=\"\"\nE=x=y"),
        vec![
            ("A".to_owned(), "\"".to_owned()),
            ("B".to_owned(), "two words".to_owned()),
            ("E".to_owned(), "x=y".to_owned()),
        ]
    );
}
