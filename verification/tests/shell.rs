use minishell::cli::{command_from_text, Command, GrammarError};
use minishell::eval::{eval, Action, EvalError, Output};
use minishell::line::Line;
use minishell::parse::{parse, squash, Expr, ParseError, Redir};
use minishell::scan::{scan, MetaToken, ScanError, Token};
use minishell::session::{collect_scan, interpret_line, LineError};
use minishell::var::{Var, VarError, Vars};

fn scan_all(line: &[u8]) -> Vec<Result<MetaToken, ScanError>> {
    let mut items = Vec::new();
    scan(line, &mut items);
    items
}

fn lex_of(t: &Token) -> &Vec<u8> {
    match t {
        Token::String { lex } => lex,
        _ => panic!("expected a string token"),
    }
}

#[test]
fn quoted_literal_is_one_token_spanning_quotes() {
    let items = scan_all(b"'a b'");
    assert_eq!(items.len(), 2);
    let m = items[0].as_ref().unwrap();
    assert_eq!(lex_of(&m.token), b"'a b'");
    assert_eq!(m.pos, 0);
    assert!(matches!(items[1].as_ref().unwrap().token, Token::Eos));
}

#[test]
fn double_quoted_literal_keeps_quotes() {
    let items = scan_all(b"say \"x 'y' z\" done");
    let m = items[1].as_ref().unwrap();
    assert_eq!(lex_of(&m.token), b"\"x 'y' z\"");
    assert_eq!(m.pos, 4);
}

#[test]
fn unterminated_quote_fails_at_opening_offset() {
    let items = scan_all(b"echo 'oops");
    assert_eq!(items.len(), 3);
    assert_eq!(lex_of(&items[0].as_ref().unwrap().token), b"echo");
    let err = items[1].as_ref().unwrap_err();
    assert_eq!(err.pos, 5);
    // nothing after the failure but the end marker
    assert!(matches!(items[2].as_ref().unwrap().token, Token::Eos));
}

#[test]
fn escaped_quote_does_not_close_literal() {
    let items = scan_all(b"'a\\'b'");
    let m = items[0].as_ref().unwrap();
    assert_eq!(lex_of(&m.token), b"'a\\'b'");
}

#[test]
fn pipeline_scan_squash_parse() {
    let items = scan_all(b"ls -la | grep foo");
    let (toks, errs) = collect_scan(items);
    assert!(errs.is_empty());
    let lexes: Vec<Vec<u8>> = toks
        .iter()
        .map(|m| match &m.token {
            Token::Eos => b"<eos>".to_vec(),
            Token::Pipe => b"<pipe>".to_vec(),
            Token::String { lex } => lex.clone(),
            _ => b"<op>".to_vec(),
        })
        .collect();
    assert_eq!(
        lexes,
        vec![
            b"ls".to_vec(),
            b"-la".to_vec(),
            b"<pipe>".to_vec(),
            b"grep".to_vec(),
            b"foo".to_vec(),
            b"<eos>".to_vec(),
        ]
    );
    let squashed = squash(toks);
    assert_eq!(lex_of(&squashed[0].token), b"ls -la");
    assert!(matches!(squashed[1].token, Token::Pipe));
    assert_eq!(lex_of(&squashed[2].token), b"grep foo");
    assert!(matches!(squashed[3].token, Token::Eos));

    let items = scan_all(b"ls -la | grep foo");
    let (toks, _) = collect_scan(items);
    let exprs = parse(toks).unwrap();
    assert_eq!(exprs.len(), 2);
    assert_eq!(exprs[0].cmd.as_ref().unwrap(), b"ls -la");
    assert!(exprs[0].redirs.is_empty());
    assert_eq!(exprs[1].cmd.as_ref().unwrap(), b"grep foo");
    assert!(exprs[1].redirs.is_empty());
}

#[test]
fn redirections_parse_in_order() {
    let (toks, errs) = collect_scan(scan_all(b"sort < in > out >> log"));
    assert!(errs.is_empty());
    let exprs = parse(toks).unwrap();
    assert_eq!(exprs.len(), 1);
    let e = &exprs[0];
    assert_eq!(e.cmd.as_ref().unwrap(), b"sort");
    assert_eq!(e.redirs.len(), 3);
    assert!(matches!(e.redirs[0].0, Redir::Input));
    assert_eq!(e.redirs[0].1, b"in");
    assert!(matches!(e.redirs[1].0, Redir::Output));
    assert_eq!(e.redirs[1].1, b"out");
    assert!(matches!(e.redirs[2].0, Redir::Append));
    assert_eq!(e.redirs[2].1, b"log");
}

#[test]
fn trailing_input_operator_is_missing_filename() {
    let (toks, errs) = collect_scan(scan_all(b"cat <"));
    assert!(errs.is_empty());
    assert!(matches!(parse(toks), Err(ParseError::MissingFilename)));
}

#[test]
fn stage_starting_with_operator_is_missing_command() {
    let (toks, _) = collect_scan(scan_all(b"< in cat"));
    assert!(matches!(parse(toks), Err(ParseError::MissingCommand)));
}

#[test]
fn empty_stage_between_pipes_is_missing_command() {
    let (toks, _) = collect_scan(scan_all(b"a | | b"));
    assert!(matches!(parse(toks), Err(ParseError::MissingCommand)));
}

#[test]
fn non_operator_in_operator_position_is_miss_redir() {
    // built by hand: after squashing, an end marker sits where an operator
    // must stand, with one more token after it to complete the pair
    let toks = vec![
        MetaToken { token: Token::String { lex: b"a".to_vec() }, pos: 0 },
        MetaToken { token: Token::Eos, pos: 1 },
        MetaToken { token: Token::String { lex: b"b".to_vec() }, pos: 2 },
    ];
    assert!(matches!(parse(toks), Err(ParseError::MissRedir)));
}

#[test]
fn serialize_then_reparse_reproduces_stage() {
    let cmd = b"grep foo".to_vec();
    let redirs = vec![
        (Redir::Input, b"in.txt".to_vec()),
        (Redir::Output, b"out.txt".to_vec()),
        (Redir::Append, b"log.txt".to_vec()),
    ];
    let line = minishell::eval::serialize_stage(&cmd, &redirs);
    assert_eq!(line, b"exec grep foo < in.txt > out.txt >> log.txt");

    let (toks, errs) = collect_scan(scan_all(&line));
    assert!(errs.is_empty());
    let exprs = parse(toks).unwrap();
    assert_eq!(exprs.len(), 1);
    let e = &exprs[0];
    assert_eq!(e.cmd.as_ref().unwrap(), b"exec grep foo");
    assert_eq!(e.redirs.len(), 3);
    assert!(matches!(e.redirs[0].0, Redir::Input));
    assert_eq!(e.redirs[0].1, b"in.txt");
    assert!(matches!(e.redirs[1].0, Redir::Output));
    assert_eq!(e.redirs[1].1, b"out.txt");
    assert!(matches!(e.redirs[2].0, Redir::Append));
    assert_eq!(e.redirs[2].1, b"log.txt");
}

#[test]
fn echo_prints_exactly_its_text() {
    let mut vars = Vars::default();
    let r = interpret_line(b"echo hello", &mut vars, None).unwrap();
    match r {
        (Action::Print { line }, Output::Norm) => assert_eq!(line, b"hello"),
        _ => panic!("echo must print its text and go on"),
    }
}

#[test]
fn echo_without_text_prints_empty_line() {
    let mut vars = Vars::default();
    let r = interpret_line(b"echo", &mut vars, None).unwrap();
    match r {
        (Action::Print { line }, Output::Norm) => assert_eq!(line, b""),
        _ => panic!("bare echo must print an empty line"),
    }
}

#[test]
fn echo_dequotes_its_operand() {
    // the word-splitting pass must really dequote: a single quoted operand
    let mut vars = Vars::default();
    let r = interpret_line(b"echo 'a b'", &mut vars, None).unwrap();
    match r {
        (Action::Print { line }, Output::Norm) => assert_eq!(line, b"a b"),
        _ => panic!("echo of a quoted operand must print it dequoted"),
    }
}

#[test]
fn builtin_pipeline_serializes_both_stages() {
    // the terminal shows the final stage's own output only: each stage runs
    // as a respawned interpreter, and only the last one writes to the console
    let mut vars = Vars::default();
    let r = interpret_line(b"echo a | echo b", &mut vars, None).unwrap();
    match r {
        (Action::Pipeline { lines }, Output::Norm) => {
            assert_eq!(lines, vec![b"exec echo a".to_vec(), b"exec echo b".to_vec()]);
        }
        _ => panic!("a two-stage line must become a pipeline"),
    }
}

#[test]
fn pipeline_stage_keeps_redirections() {
    let mut vars = Vars::default();
    let r = interpret_line(b"sort < in | uniq > out", &mut vars, None).unwrap();
    match r {
        (Action::Pipeline { lines }, Output::Norm) => {
            assert_eq!(lines, vec![b"exec sort < in".to_vec(), b"exec uniq > out".to_vec()]);
        }
        _ => panic!("stages keep their redirections when serialized"),
    }
}

#[test]
fn export_dash_n_without_operands_is_usage_error() {
    let mut vars = Vars::default();
    vars.append(vec![Var(b"FOO".to_vec(), b"bar".to_vec())]);
    let r = interpret_line(b"export -n", &mut vars, None);
    assert!(matches!(r, Err(LineError::Eval(EvalError::ExportUsage))));
    // the store is untouched
    assert_eq!(vars.get(b"FOO").unwrap(), b"bar");
}

#[test]
fn export_sets_and_removes_variables() {
    let mut vars = Vars::default();
    let r = interpret_line(b"export FOO=1 BAR=2", &mut vars, None).unwrap();
    assert!(matches!(r, (Action::NoEffect, Output::Norm)));
    assert_eq!(vars.get(b"FOO").unwrap(), b"1");
    assert_eq!(vars.get(b"BAR").unwrap(), b"2");

    interpret_line(b"export FOO=9", &mut vars, None).unwrap();
    assert_eq!(vars.get(b"FOO").unwrap(), b"9");

    interpret_line(b"export -n FOO", &mut vars, None).unwrap();
    assert!(vars.get(b"FOO").is_none());
    assert_eq!(vars.get(b"BAR").unwrap(), b"2");
}

#[test]
fn export_bare_key_means_empty_value() {
    let mut vars = Vars::default();
    interpret_line(b"export FOO", &mut vars, None).unwrap();
    assert_eq!(vars.get(b"FOO").unwrap(), b"");
}

#[test]
fn var_from_word_splits_at_first_equals() {
    let v = Var::from_word(b"KEY=a=b").unwrap();
    assert_eq!(v.0, b"KEY");
    assert_eq!(v.1, b"a=b");
    let v = Var::from_word(b"KEY").unwrap();
    assert_eq!(v.0, b"KEY");
    assert_eq!(v.1, b"");
    assert!(matches!(Var::from_word(b"=x"), Err(VarError::EmptyKey)));
    assert!(matches!(Var::from_word(b""), Err(VarError::EmptyKey)));
}

#[test]
fn cd_resolves_home() {
    let mut vars = Vars::default();
    let home = Some(b"/home/me".to_vec());
    let r = interpret_line(b"cd", &mut vars, home.clone()).unwrap();
    match r {
        (Action::ChangeDir { target }, Output::Norm) => assert_eq!(target, b"/home/me"),
        _ => panic!("bare cd must go home"),
    }
    let r = interpret_line(b"cd ~", &mut vars, home).unwrap();
    match r {
        (Action::ChangeDir { target }, Output::Norm) => assert_eq!(target, b"/home/me"),
        _ => panic!("cd ~ must go home"),
    }
    let r = interpret_line(b"cd somewhere", &mut vars, None).unwrap();
    match r {
        (Action::ChangeDir { target }, Output::Norm) => assert_eq!(target, b"somewhere"),
        _ => panic!("cd with a path must use it"),
    }
    let r = interpret_line(b"cd", &mut vars, None);
    assert!(matches!(r, Err(LineError::Eval(EvalError::MissingHome))));
}

#[test]
fn pwd_and_ls_become_their_actions() {
    let mut vars = Vars::default();
    assert!(matches!(
        interpret_line(b"pwd", &mut vars, None).unwrap(),
        (Action::PrintCwd, Output::Norm)
    ));
    assert!(matches!(
        interpret_line(b"ls", &mut vars, None).unwrap(),
        (Action::ListDir { path: None }, Output::Norm)
    ));
    match interpret_line(b"ls subdir", &mut vars, None).unwrap() {
        (Action::ListDir { path: Some(p) }, Output::Norm) => assert_eq!(p, b"subdir"),
        _ => panic!("ls with a path must keep it"),
    }
}

#[test]
fn exit_requests_termination() {
    let mut vars = Vars::default();
    assert!(matches!(
        interpret_line(b"exit", &mut vars, None).unwrap(),
        (Action::NoEffect, Output::Exit)
    ));
}

#[test]
fn external_command_with_redirections() {
    let mut vars = Vars::default();
    let r = interpret_line(b"foo -x 1 > out", &mut vars, None).unwrap();
    match r {
        (Action::Run { program, args, inputs, outputs, appends }, Output::Norm) => {
            assert_eq!(program, b"foo");
            assert_eq!(args, vec![b"-x".to_vec(), b"1".to_vec()]);
            assert!(inputs.is_empty());
            assert_eq!(outputs, vec![b"out".to_vec()]);
            assert!(appends.is_empty());
        }
        _ => panic!("an unknown word is an external invocation"),
    }
}

#[test]
fn exec_runs_then_terminates_this_process() {
    let mut vars = Vars::default();
    let r = interpret_line(b"exec cat f", &mut vars, None).unwrap();
    match r {
        (Action::Run { program, args, .. }, Output::Exit) => {
            assert_eq!(program, b"cat");
            assert_eq!(args, vec![b"f".to_vec()]);
        }
        _ => panic!("exec runs its program and then ends the process"),
    }
}

#[test]
fn builtin_with_extra_operands_falls_back_to_external() {
    // `echo` takes one operand; more means the external program `echo`
    let c = command_from_text(b"echo one two").unwrap();
    match c {
        Command::External { program, args } => {
            assert_eq!(program, b"echo");
            assert_eq!(args, vec![b"one".to_vec(), b"two".to_vec()]);
        }
        _ => panic!("an overfull builtin shape goes external"),
    }
}

#[test]
fn grammar_dequotes_words() {
    // would fail if word-splitting handed the raw text back unchanged
    let c = command_from_text(b"echo 'a b'").unwrap();
    match c {
        Command::Echo { s: Some(t) } => assert_eq!(t, b"a b"),
        _ => panic!("a single quoted operand stays one word, dequoted"),
    }
}

#[test]
fn unsplittable_text_falls_back_to_raw_words() {
    // an unclosed quote makes word-splitting fail; the raw words then go
    // the external path
    let c = command_from_text(b"ab'cd ef").unwrap();
    match c {
        Command::External { program, args } => {
            assert_eq!(program, b"ab'cd");
            assert_eq!(args, vec![b"ef".to_vec()]);
        }
        _ => panic!("a text that cannot be dequoted runs as itself"),
    }
}

#[test]
fn comment_only_text_is_empty_command() {
    assert!(matches!(
        command_from_text(b"#note"),
        Err(GrammarError::EmptyCommand)
    ));
    let mut vars = Vars::default();
    assert!(matches!(
        interpret_line(b"#note", &mut vars, None),
        Err(LineError::Eval(EvalError::EmptyCommand))
    ));
}

#[test]
fn no_stage_at_all_is_no_expression() {
    let mut vars = Vars::default();
    assert!(matches!(
        eval(Vec::<Expr>::new(), &mut vars, None),
        Err(EvalError::NoExpression)
    ));
}

#[test]
fn scan_failure_aborts_the_line() {
    let mut vars = Vars::default();
    match interpret_line(b"echo 'oops", &mut vars, None) {
        Err(LineError::Scan(errs)) => {
            assert_eq!(errs.len(), 1);
            assert_eq!(errs[0].pos, 5);
        }
        _ => panic!("an unterminated quote must abort the line"),
    }
}

#[test]
fn parse_failure_reaches_the_caller() {
    let mut vars = Vars::default();
    assert!(matches!(
        interpret_line(b"cat <", &mut vars, None),
        Err(LineError::Parse(ParseError::MissingFilename))
    ));
}

#[test]
fn line_drain_trims_and_empties_buffer() {
    let mut buf = b"  ls -la \n".to_vec();
    let line = Line::drain(&mut buf);
    assert!(buf.is_empty());
    assert_eq!(line.as_bytes(), b"ls -la");
    assert!(!line.is_empty());

    let mut blank = b" \t\r\n".to_vec();
    let line = Line::drain(&mut blank);
    assert!(line.is_empty());
}

#[test]
fn echo_writes_nothing_to_files() {
    // a redirection on a builtin stage is ignored: the text still goes to
    // the console and no file action is produced
    let mut vars = Vars::default();
    let r = interpret_line(b"echo hi > f", &mut vars, None).unwrap();
    match r {
        (Action::Print { line }, Output::Norm) => assert_eq!(line, b"hi"),
        _ => panic!("echo never opens a file"),
    }
}

#[test]
fn missing_target_message_is_distinct() {
    let msg = minishell::eval::no_such_file_message(&b"nowhere".to_vec());
    assert_eq!(msg, b"nowhere: no such file or directory");
}

#[test]
fn store_lookup_misses_absent_keys() {
    let vars = Vars::default();
    assert!(vars.get(b"NOPE").is_none());
}

#[test]
fn serialize_groups_redirections_by_kind() {
    // the respawn line has the exact shape `exec <cmd> [< in]* [> out]* [>> app]*`:
    // pairs written in another order regroup, keeping the same multiset
    let cmd = b"cat".to_vec();
    let redirs = vec![
        (Redir::Append, b"log".to_vec()),
        (Redir::Output, b"out".to_vec()),
        (Redir::Input, b"in".to_vec()),
        (Redir::Output, b"out2".to_vec()),
    ];
    let line = minishell::eval::serialize_stage(&cmd, &redirs);
    assert_eq!(line, b"exec cat < in > out > out2 >> log");
}

#[test]
fn dangling_operator_before_pipe_is_missing_filename() {
    // the pipe cuts the stage right after the operator; the operator must
    // not be silently dropped
    let (toks, errs) = collect_scan(scan_all(b"cat < | wc"));
    assert!(errs.is_empty());
    assert!(matches!(parse(toks), Err(ParseError::MissingFilename)));

    let mut vars = Vars::default();
    assert!(matches!(
        interpret_line(b"cat < | wc", &mut vars, None),
        Err(LineError::Parse(ParseError::MissingFilename))
    ));
}

#[test]
fn escaped_delimiter_does_not_end_bareword() {
    // a backslash shields the delimiter after it but stays in the lexeme
    let items = scan_all(b"a\\ b");
    assert_eq!(items.len(), 2);
    assert_eq!(lex_of(&items[0].as_ref().unwrap().token), b"a\\ b");
    assert!(matches!(items[1].as_ref().unwrap().token, Token::Eos));

    let items = scan_all(b"x\\<y");
    assert_eq!(items.len(), 2);
    assert_eq!(lex_of(&items[0].as_ref().unwrap().token), b"x\\<y");
}

#[test]
fn rendered_line_reads_back_in_order() {
    // a rendered stage line in any pair order parses back to the same pairs
    // in that order
    let (toks, errs) = collect_scan(scan_all(b"exec cat > out < in"));
    assert!(errs.is_empty());
    let exprs = parse(toks).unwrap();
    assert_eq!(exprs.len(), 1);
    let e = &exprs[0];
    assert_eq!(e.cmd.as_ref().unwrap(), b"exec cat");
    assert_eq!(e.redirs.len(), 2);
    assert!(matches!(e.redirs[0].0, Redir::Output));
    assert_eq!(e.redirs[0].1, b"out");
    assert!(matches!(e.redirs[1].0, Redir::Input));
    assert_eq!(e.redirs[1].1, b"in");
}
