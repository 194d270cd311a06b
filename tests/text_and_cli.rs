use mcp_sandboxscan::cli::parse_key_val;
use mcp_sandboxscan::text::{compare_text, split_lines, trim};

#[test]
fn lines_like_std() {
    for s in ["", "a", "a\n", "a\r\nb", "\n\n", "x\ry", "a\r", "a\n\r\n"] {
        let expected: Vec<String> = s.lines().map(|l| l.to_string()).collect();
        assert_eq!(split_lines(s), expected, "input {:?}", s);
    }
}

#[test]
fn trim_like_std() {
    for s in ["", "  ", " a b ", "\u{3000}x\u{a0}", "\t\r\nq"] {
        assert_eq!(trim(s), s.trim());
    }
}

#[test]
fn compare_like_std() {
    let pairs = [("a", "b"), ("ab", "a"), ("", ""), ("é", "z"), ("same", "same")];
    for (a, b) in pairs {
        let expected = match a.cmp(b) {
            std::cmp::Ordering::Less => -1,
            std::cmp::Ordering::Equal => 0,
            std::cmp::Ordering::Greater => 1,
        };
        assert_eq!(compare_text(a, b), expected);
    }
}

#[test]
fn key_val_parsing() {
    assert_eq!(parse_key_val(" K = v=w"), Ok(("K".to_string(), " v=w".to_string())));
    assert_eq!(parse_key_val("K="), Ok(("K".to_string(), "".to_string())));
    assert_eq!(parse_key_val("novalue"), Err("Expected KEY=VALUE".to_string()));
    assert_eq!(parse_key_val("  =v"), Err("Empty KEY".to_string()));
}
