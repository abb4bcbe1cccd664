use git_open::{
    branch_from_symbolic_ref, commit_link, commit_target, extract_pr_url, line_link, line_target,
    normalize, parse_path_and_line, pr_url_from_capture, to_decimal, trimmed, FileLineArgument,
    ParseError, PrUrlError,
};

#[test]
fn test_correct_pr_parsing_from_output() {
    let output = r#"Counting objects: 4, done.
Delta compression using up to 12 threads.
Compressing objects: 100% (4/4), done.
Writing objects: 100% (4/4), 3.01 KiB | 3.01 MiB/s, done.
Total 4 (delta 2), reused 0 (delta 0)
remote: Resolving deltas: 100% (2/2), completed with 2 local objects.
remote:
remote: Create a pull request for 'feat/add-more-pokemons' on GitHub by visiting:
remote:      https://github.com/tobiasbueschel/awesome-pokemon/pull/new/feat/add-more-pokemons
remote:
To github.com:tobiasbueschel/awesome-pokemon.git
 * [new branch]      feat/add-more-pokemons -> feat/add-more-pokemons"#;
    let captured = extract_pr_url(output).unwrap();
    println!("{:?}", &captured);
    assert!(captured.starts_with("https"));
    assert!(captured.ends_with("add-more-pokemons"));
}

#[test]
fn pr_url_is_exact() {
    let output = "Total 1\nremote:      https://github.com/o/r/pull/new/feat-x\nremote:\n";
    assert_eq!(
        extract_pr_url(output),
        Ok("https://github.com/o/r/pull/new/feat-x".to_string())
    );
}

#[test]
fn pr_url_missing() {
    let output = "Everything up-to-date\nremote: nothing to see here\n";
    assert_eq!(extract_pr_url(output), Err(PrUrlError::PrUrlNotFound));
    assert_eq!(extract_pr_url(""), Err(PrUrlError::PrUrlNotFound));
}

#[test]
fn pr_url_from_capture_cases() {
    assert_eq!(
        pr_url_from_capture(Some("https://x/y".to_string())),
        Ok("https://x/y".to_string())
    );
    assert_eq!(pr_url_from_capture(None), Err(PrUrlError::PrUrlNotFound));
}

#[test]
fn normalize_ssh_url() {
    assert_eq!(
        normalize("git@github.com:o/r.git"),
        Ok("https://github.com/o/r".to_string())
    );
    assert_eq!(
        normalize("git@github.com:owner/repo.git\n"),
        Ok("https://github.com/owner/repo".to_string())
    );
    assert_eq!(
        normalize("git@gitlab.example.org:team/project"),
        Ok("https://gitlab.example.org/team/project".to_string())
    );
}

#[test]
fn normalize_https_url() {
    assert_eq!(
        normalize("https://github.com/o/r.git"),
        Ok("https://github.com/o/r".to_string())
    );
    assert_eq!(
        normalize("https://github.com/o/r"),
        Ok("https://github.com/o/r".to_string())
    );
    assert_eq!(
        normalize("https://github.com/o/r.git \r\n"),
        Ok("https://github.com/o/r".to_string())
    );
}

#[test]
fn normalize_drops_credentials() {
    assert_eq!(
        normalize("https://user@github.com/o/r"),
        Ok("https://github.com/o/r".to_string())
    );
    assert_eq!(
        normalize("https://user:pw@github.com/o/r.git\n"),
        Ok("https://github.com/o/r".to_string())
    );
}

#[test]
fn normalize_is_idempotent() {
    for raw in [
        "git@github.com:o/r.git\n",
        "https://user@host.io/a/b",
        "https://host.io/a/b.git",
    ] {
        let once = normalize(raw).unwrap();
        assert_eq!(normalize(&once), Ok(once.clone()));
    }
}

#[test]
fn normalize_refuses_other_text() {
    for raw in [
        "",
        "\n",
        "ftp://github.com/o/r.git",
        "some random text",
        "git@github.com:o",
        "git@github.com:o/r/extra",
        "git@:o/r",
        "https://github.com/o",
        "https://github.com//r",
        "https://github.com/o/r/",
        "https://github.com/o/.git",
        "https://a@b@github.com/o/r",
        "https://github.com/o/r x",
        "http://github.com/o/r",
        "git@github.com:o/r.git.git",
    ] {
        assert_eq!(normalize(raw), Err(ParseError::UnrecognizedFormat), "{:?}", raw);
    }
}

#[test]
fn parse_path_and_line_splits() {
    assert_eq!(
        parse_path_and_line("src/main.rs:42", ':'),
        Ok(FileLineArgument {
            filepath: "src/main.rs".to_string(),
            line_number: 42
        })
    );
}

#[test]
fn parse_path_and_line_uses_last_separator() {
    assert_eq!(
        parse_path_and_line("C:/dir/file.txt:10", ':'),
        Ok(FileLineArgument {
            filepath: "C:/dir/file.txt".to_string(),
            line_number: 10
        })
    );
    assert_eq!(
        parse_path_and_line("a#b#007", '#'),
        Ok(FileLineArgument {
            filepath: "a#b".to_string(),
            line_number: 7
        })
    );
}

#[test]
fn parse_path_and_line_missing_separator() {
    assert_eq!(
        parse_path_and_line("README", ':'),
        Err(ParseError::MissingSeparator)
    );
    assert_eq!(parse_path_and_line("", ':'), Err(ParseError::MissingSeparator));
}

#[test]
fn parse_path_and_line_empty_path() {
    assert_eq!(parse_path_and_line(":5", ':'), Err(ParseError::EmptyPath));
}

#[test]
fn parse_path_and_line_invalid_line() {
    assert_eq!(
        parse_path_and_line("file.txt:abc", ':'),
        Err(ParseError::InvalidLineNumber)
    );
    assert_eq!(
        parse_path_and_line("file.txt:", ':'),
        Err(ParseError::InvalidLineNumber)
    );
    assert_eq!(
        parse_path_and_line("file.txt:0", ':'),
        Err(ParseError::InvalidLineNumber)
    );
    assert_eq!(
        parse_path_and_line("file.txt:+3", ':'),
        Err(ParseError::InvalidLineNumber)
    );
    assert_eq!(
        parse_path_and_line("file.txt:18446744073709551616", ':'),
        Err(ParseError::InvalidLineNumber)
    );
    assert_eq!(parse_path_and_line(":x", ':'), Err(ParseError::InvalidLineNumber));
}

#[test]
fn parse_path_and_line_largest_line() {
    assert_eq!(
        parse_path_and_line("f:18446744073709551615", ':'),
        Ok(FileLineArgument {
            filepath: "f".to_string(),
            line_number: u64::MAX
        })
    );
}

#[test]
fn commit_link_appends_commit() {
    assert_eq!(
        commit_link("https://github.com/o/r", "abc123"),
        "https://github.com/o/r/commit/abc123"
    );
}

#[test]
fn line_link_builds_blob_view() {
    assert_eq!(
        line_link("https://github.com/o/r", "main", "src/lib.rs", 42),
        Ok("https://github.com/o/r/blob/main/src/lib.rs#L42".to_string())
    );
    assert_eq!(
        line_link("https://github.com/o/r", "main", "", 1),
        Err(ParseError::EmptyPath)
    );
}

#[test]
fn decimal_digits() {
    assert_eq!(to_decimal(0), "0");
    assert_eq!(to_decimal(7), "7");
    assert_eq!(to_decimal(1230), "1230");
    assert_eq!(to_decimal(u64::MAX), "18446744073709551615");
}

#[test]
fn targets_compose() {
    assert_eq!(
        commit_target("git@github.com:o/r.git\n", "abc123"),
        Ok("https://github.com/o/r/commit/abc123".to_string())
    );
    assert_eq!(
        commit_target("ftp://x/y/z", "abc123"),
        Err(ParseError::UnrecognizedFormat)
    );
    let file = FileLineArgument {
        filepath: "src/main.rs".to_string(),
        line_number: 3,
    };
    assert_eq!(
        line_target("https://github.com/o/r.git\n", "dev", &file),
        Ok("https://github.com/o/r/blob/dev/src/main.rs#L3".to_string())
    );
    assert_eq!(
        line_target("nonsense", "dev", &file),
        Err(ParseError::UnrecognizedFormat)
    );
}

#[test]
fn symbolic_ref_branch() {
    assert_eq!(
        branch_from_symbolic_ref("refs/heads/feat/x\n"),
        Some("feat/x".to_string())
    );
    assert_eq!(branch_from_symbolic_ref("abc123\n"), None);
    assert_eq!(branch_from_symbolic_ref(""), None);
}

#[test]
fn trimmed_both_ends() {
    assert_eq!(trimmed("  origin\n"), "origin");
    assert_eq!(trimmed("\u{3000}x y\t"), "x y");
    assert_eq!(trimmed(" \n "), "");
}
