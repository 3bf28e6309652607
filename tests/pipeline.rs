use tfla_cc::compiler::{Assembler, Kind, Note, Searcher, Symbol, TflaCC, TflaError};
use tfla_cc::tfla::{Token, TFLA};

fn grammar() -> Vec<(String, String)> {
    vec![
        Searcher::new("comment", r"^\-\-").transform(),
        Searcher::new("NEW_LINE", r"^(\r)?\n").transform(),
        Searcher::new("SPACE", r"^\s").transform(),
        Searcher::new("searcher", r"^\[(\w|_)+\]").transform(),
        Searcher::new("assembler", r"^<(\w|_)+>").transform(),
        Searcher::new("symbol", r"^\:(\w|_)+\:").transform(),
        Searcher::new("colon", r"^(:|:r|::=)").transform(),
        Searcher::new("pipe", r"^\|").transform(),
        Searcher::new("entity", r"^[^\s]*").transform(),
    ]
}

fn pairs(v: &[(&str, &str)]) -> Vec<(String, String)> {
    v.iter().map(|(a, b)| (a.to_string(), b.to_string())).collect()
}

fn scan(rules: &[(&str, &str)], source: &str) -> Vec<Token> {
    let mut t = TFLA::new(pairs(rules), vec![], true).unwrap();
    t.tokenize(source).unwrap();
    t.into_tokens()
}

fn kinds(ts: &[Token]) -> Vec<String> {
    ts.iter().map(|t| t.ty.clone()).collect()
}

#[test]
fn blank_and_comment_source_digests_to_nothing() {
    let cc = TflaCC::new("   \n-- a comment [x] <y>\n\n  -- another\n", grammar());
    assert_eq!(cc.digest().unwrap(), "");
    assert_eq!(TflaCC::new("", grammar()).digest().unwrap(), "");
}

#[test]
fn earlier_rule_wins_on_a_shared_prefix() {
    let ts = scan(&[("word", "^[a-z]+"), ("ab", "^ab")], "ab");
    assert_eq!(kinds(&ts), vec!["word"]);
    let ts = scan(&[("ab", "^ab"), ("word", "^[a-z]+")], "ab");
    assert_eq!(kinds(&ts), vec!["ab"]);
}

#[test]
fn line_comment_is_silent_until_newline() {
    let rules = [("LINE_COMMENT", "^#"), ("NEW_LINE", r"^\n"), ("SPACE", r"^\s"), ("w", r"^[^\s]+")];
    let ts = scan(&rules, "x # y z\nw");
    assert_eq!(kinds(&ts), vec!["w", "NEW_LINE", "w"]);
    assert_eq!(ts[0].content, "x");
    assert_eq!(ts[1].line, 1);
    assert_eq!(ts[2].content, "w");
    assert_eq!(ts[2].line, 2);
    assert_eq!(ts[2].start, 1);
}

#[test]
fn block_comment_toggles_and_newlines_stay() {
    let rules = [("BLOCK_COMMENT", r"^\*\*"), ("NEW_LINE", r"^\n"), ("SPACE", r"^\s"), ("w", r"^[^\s*]+")];
    let ts = scan(&rules, "a ** b\nc ** d");
    assert_eq!(kinds(&ts), vec!["w", "NEW_LINE", "BLOCK_COMMENT", "w"]);
    assert_eq!(ts[3].content, "d");
}

#[test]
fn columns_advance_by_consumed_length() {
    let ts = TflaCC::new("[a] = b\n<c>", grammar()).tokenize().unwrap();
    let got: Vec<(String, usize, usize, usize)> = ts.iter().map(|t| (t.content.clone(), t.line, t.start, t.end)).collect();
    assert_eq!(
        got,
        vec![
            ("[a]".to_string(), 1, 1, 4),
            ("=".to_string(), 1, 5, 6),
            ("b".to_string(), 1, 7, 8),
            ("\n".to_string(), 1, 8, 9),
            ("<c>".to_string(), 2, 1, 4),
        ]
    );
}

#[test]
fn round_trip_searcher_symbol_assembler() {
    let src = "[num] = \\d+\n:zero: = 0\n<n> = [num]\n";
    let cc = TflaCC::new(src, grammar());
    let expected = "se num \\d+\nsy zero 0\nas n se-num";
    assert_eq!(cc.analyse().unwrap(), expected);
    assert_eq!(cc.digest().unwrap(), expected);
}

#[test]
fn unresolved_searcher_reference() {
    let cc = TflaCC::new("<bad> = [missing]", grammar());
    match cc.analyse() {
        Err(TflaError::UnresolvedReference { assembler, target_kind, target, line }) => {
            assert_eq!(assembler, "bad");
            assert_eq!(target_kind, Kind::Searcher);
            assert_eq!(target, "missing");
            assert_eq!(line, 1);
        }
        other => panic!("unexpected {:?}", other),
    }
    assert_eq!(cc.digest().unwrap(), "as bad se-missing");
}

#[test]
fn unresolved_symbol_and_assembler_references() {
    match TflaCC::new("<a> = :nope:", grammar()).analyse() {
        Err(TflaError::UnresolvedReference { target_kind, target, .. }) => {
            assert_eq!(target_kind, Kind::Symbol);
            assert_eq!(target, "nope");
        }
        other => panic!("unexpected {:?}", other),
    }
    match TflaCC::new("<a> = x\n<b> = <c>", grammar()).analyse() {
        Err(TflaError::UnresolvedReference { assembler, target_kind, target, line }) => {
            assert_eq!(assembler, "b");
            assert_eq!(target_kind, Kind::Assembler);
            assert_eq!(target, "c");
            assert_eq!(line, 2);
        }
        other => panic!("unexpected {:?}", other),
    }
}

#[test]
fn only_declared_symbols_resolve() {
    match TflaCC::new("<a> = :num:", grammar()).analyse() {
        Err(TflaError::UnresolvedReference { assembler, target_kind, target, line }) => {
            assert_eq!(assembler, "a");
            assert_eq!(target_kind, Kind::Symbol);
            assert_eq!(target, "num");
            assert_eq!(line, 1);
        }
        other => panic!("unexpected {:?}", other),
    }
    let cc = TflaCC::new(":num: = 0\n<a> = :num: word", grammar());
    assert_eq!(cc.analyse().unwrap(), "sy num 0\nas a sy-num li-word");
}

#[test]
fn direct_self_reference() {
    match TflaCC::new("<loop> = <loop>", grammar()).analyse() {
        Err(TflaError::CircularExpansion { assembler, line, direct }) => {
            assert_eq!(assembler, "loop");
            assert_eq!(line, 1);
            assert!(direct);
        }
        other => panic!("unexpected {:?}", other),
    }
}

#[test]
fn indirect_cycle() {
    match TflaCC::new("<a> = <b>\n<b> = <a>", grammar()).analyse() {
        Err(TflaError::CircularExpansion { assembler, line, direct }) => {
            assert_eq!(assembler, "a");
            assert_eq!(line, 2);
            assert!(!direct);
        }
        other => panic!("unexpected {:?}", other),
    }
}

#[test]
fn cycle_not_through_start_terminates() {
    match TflaCC::new("<s> = <a>\n<a> = <b>\n<b> = <a>", grammar()).analyse() {
        Err(TflaError::CircularExpansion { assembler, line, direct }) => {
            assert_eq!(assembler, "a");
            assert_eq!(line, 3);
            assert!(!direct);
        }
        other => panic!("unexpected {:?}", other),
    }
}

#[test]
fn acyclic_chain_passes() {
    let cc = TflaCC::new("<a> = <b> <c>\n<b> = <c>\n<c> = x", grammar());
    assert_eq!(cc.analyse().unwrap(), "as a as-b as-c\nas b as-c\nas c li-x");
}

#[test]
fn digest_is_not_redigestible() {
    let once = TflaCC::new("[num] = \\d+", grammar()).digest().unwrap();
    match TflaCC::new(&once, grammar()).digest() {
        Err(TflaError::UnknownHeadToken { content, kind, line, column }) => {
            assert_eq!(content, "se");
            assert_eq!(kind, "entity");
            assert_eq!(line, 1);
            assert_eq!(column, 1);
        }
        other => panic!("unexpected {:?}", other),
    }
}

#[test]
fn unknown_head_token() {
    match TflaCC::new("[a] = b\nfoo bar", grammar()).digest() {
        Err(TflaError::UnknownHeadToken { content, kind, line, column }) => {
            assert_eq!(content, "foo");
            assert_eq!(kind, "entity");
            assert_eq!(line, 2);
            assert_eq!(column, 1);
        }
        other => panic!("unexpected {:?}", other),
    }
}

#[test]
fn bad_pattern() {
    let rules = pairs(&[("ok", "^a"), ("broken", "(")]);
    match TflaCC::new("a", rules).digest() {
        Err(TflaError::BadPattern { kind, pattern }) => {
            assert_eq!(kind, "broken");
            assert_eq!(pattern, "(");
        }
        other => panic!("unexpected {:?}", other),
    }
    assert!(TFLA::new(pairs(&[("x", "[")]), vec![], true).is_err());
}

#[test]
fn scan_stall_keeps_rest() {
    match TflaCC::new("aab", pairs(&[("a", "^a")])).tokenize() {
        Err(TflaError::ScanStall { rest }) => assert_eq!(rest, "b"),
        other => panic!("unexpected {:?}", other),
    }
    let mut t = TFLA::new(pairs(&[("a", "^a"), ("e", "^x*")]), vec![], true).unwrap();
    let r = t.tokenize("ab");
    assert_eq!(r.unwrap_err().rest, "b");
    assert_eq!(kinds(&t.into_tokens()), vec!["a"]);
}

#[test]
fn continuation_echoes_open_assembler() {
    let p = TflaCC::new("<a> = x\n: = y", grammar()).parse().unwrap();
    assert_eq!(p.notes.len(), 1);
    match &p.notes[0] {
        Note::Echo(s) => assert_eq!(s, "as a li-x"),
        _ => panic!("expected an echo"),
    }
    assert_eq!(p.decls.len(), 1);
    assert_eq!(p.decls[0].mount(), "as a li-x li-y");
}

#[test]
fn misplaced_continuation_is_a_warning() {
    let cc = TflaCC::new("[s] = x\n| = y", grammar());
    let p = cc.parse().unwrap();
    assert_eq!(p.notes.len(), 1);
    match &p.notes[0] {
        Note::Misplaced { open, line, column } => {
            assert_eq!(*open, tfla_cc::compiler::Open::Searcher);
            assert_eq!(*line, 2);
            assert_eq!(*column, 1);
        }
        _ => panic!("expected a warning"),
    }
    assert_eq!(cc.digest().unwrap(), "se s x y");
}

#[test]
fn declarations_span_lines_and_join_arguments() {
    let cc = TflaCC::new("[s] = a b\n:v: = 1 2\n<x> = [s]\n-- note\n", grammar());
    assert_eq!(cc.digest().unwrap(), "se s a b\nsy v 1 2\nas x se-s");
}

#[test]
fn duplicate_names_are_kept() {
    let cc = TflaCC::new("[s] = a\n[s] = b\n<x> = [s]", grammar());
    assert_eq!(cc.analyse().unwrap(), "se s a\nse s b\nas x se-s");
}

#[test]
fn entity_mounts() {
    let mut s = Searcher::new("num", "");
    s.add_arbitrary("\\d");
    s.add_arbitrary("+");
    assert_eq!(s.mount(), "se num \\d +");
    assert_eq!(s.transform(), ("num".to_string(), "\\d +".to_string()));
    let mut y = Symbol::new("zero", "");
    y.add_arbitrary("0");
    assert_eq!(y.mount(), "sy zero 0");
    let mut a = Assembler::new("n".to_string(), vec![]);
    for x in ["<b>", "[c]", ":d:", "lit", "<>", "ab"] {
        a.add_arbitrary(x);
    }
    assert_eq!(a.mount(), "as n as-b se-c sy-d li-lit li-<> li-ab");
    assert!(a.have_arbitrary("[c]"));
    assert!(!a.have_arbitrary("se-c"));
    assert_eq!(a.arbitrary().len(), 6);
    assert_eq!(a.name(), "n");
    let list = vec![a, Assembler::new("m".to_string(), vec![])];
    assert!(Assembler::contain(&list, "m"));
    assert!(!Assembler::contain(&list, "q"));
}

#[test]
fn token_new_keeps_fields() {
    let t = Token::new("k", "abc", 3, 4, 7);
    assert_eq!((t.ty.as_str(), t.content.as_str(), t.line, t.start, t.end), ("k", "abc", 3, 4, 7));
}

#[test]
fn assembler_from_numbered_line() {
    let a = Assembler::from("3 as n se-num li-x").unwrap();
    assert_eq!(a.name(), "n");
    assert_eq!(a.arbitrary(), vec!["se-num".to_string(), "li-x".to_string()]);
    assert!(a.have_arbitrary("se-num"));
    let b = Assembler::from("12 as m  y").unwrap();
    assert_eq!(b.arbitrary(), vec!["".to_string(), "y".to_string()]);
    assert_eq!(Assembler::from("0 as k").unwrap().arbitrary().len(), 0);
}

#[test]
fn assembler_from_rejects_malformed_lines() {
    assert!(Assembler::from("x as n").is_none());
    assert!(Assembler::from("1 as").is_none());
    assert!(Assembler::from("").is_none());
    assert!(Assembler::from("99999999999999999999999 as n").is_none());
    assert!(Assembler::from("-1 as n").is_none());
}

#[test]
fn numbered_lines_read_back() {
    let p = TflaCC::new("[num] = \\d+\n\n\n<n> = [num] x :zero:", grammar()).parse().unwrap();
    let lines: Vec<String> = p.decls.iter().map(|d| d.numbered()).collect();
    assert_eq!(lines, vec!["1 se num \\d+".to_string(), "4 as n se-num li-x sy-zero".to_string()]);
    let a = Assembler::from(&lines[1]).unwrap();
    assert_eq!(a.name(), "n");
    assert_eq!(a.arbitrary(), vec!["se-num".to_string(), "li-x".to_string(), "sy-zero".to_string()]);
    let far = TflaCC::new(&format!("{}<z> = q", "\n".repeat(1234)), grammar()).parse().unwrap();
    assert_eq!(far.decls[0].numbered(), "1235 as z li-q");
}

#[test]
fn matches_are_anchored_at_the_cursor() {
    let ts = scan(&[("b", "b"), ("a", "^a")], "ab");
    assert_eq!(kinds(&ts), vec!["a", "b"]);
    assert_eq!(ts[0].content, "a");
    assert_eq!(ts[1].content, "b");
    match TflaCC::new("xa", pairs(&[("a", "a")])).tokenize() {
        Err(TflaError::ScanStall { rest }) => assert_eq!(rest, "xa"),
        other => panic!("unexpected {:?}", other),
    }
}

#[test]
fn tokenizer_accessors() {
    let entries = vec![("x".to_string(), vec!["y".to_string()])];
    let mut t = TFLA::new(pairs(&[("w", r"^\w+"), ("SPACE", r"^\s")]), entries.clone(), false).unwrap();
    assert_eq!(t.assemblers(), &entries);
    assert!(!t.ignore_spaces());
    assert_eq!(t.searchers().len(), 2);
    assert_eq!(t.searchers()[1].kind(), "SPACE");
    assert_eq!(t.searchers()[0].pattern(), r"^\w+");
    t.tokenize("a b").unwrap();
    assert_eq!(kinds(t.tokens()), vec!["w", "SPACE", "w"]);
}
