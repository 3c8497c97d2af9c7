use goudron::error::Error::{
    ErrorEmptyFile, ErrorExpectedToken, ErrorNoParse, ErrorNullVar, ErrorReadline, ErrorUnclosedString,
    ErrorUnxepectedToken, WarningEmptyString, WarningEscapeSeq,
};
use goudron::error::{ErrorHandler, Loc};
use goudron::lexer::Lexer;
use goudron::lexer::Token;
use goudron::lexer::TokenSort::{
    TokenBody, TokenDelete, TokenEq, TokenGet, TokenId, TokenNumber, TokenPlus, TokenPost, TokenPrint, TokenPut,
    TokenQmark, TokenString,
};
use goudron::parser::Parser;
use goudron::vm::{Action, Failure, Inst, RouteError, Vm};

fn lines_of(text: &str) -> Vec<Vec<u8>> {
    text.split_inclusive('\n').map(|l| l.as_bytes().to_vec()).collect()
}

fn lex(text: &str, err: &mut ErrorHandler) -> Vec<Token> {
    Lexer::new(lines_of(text), false, err).get_tokens(err)
}

fn compile(text: &str, err: &mut ErrorHandler) -> Vec<Inst> {
    let t = lex(text, err);
    Parser::new(t).parse(err)
}

/// Runs a program to its end, answering each request with `endpoint`.
/// Returns the printed values, the reported route errors and the counts.
fn run<F>(vm: &mut Vm, endpoint: F) -> (Vec<String>, Vec<RouteError>, (usize, usize), usize)
where
    F: Fn(&str, &str, Option<&str>) -> Option<(String, String)>,
{
    let mut printed = Vec::new();
    let mut failures = Vec::new();
    let mut calls = 0;
    loop {
        match vm.step() {
            Action::Next => {}
            Action::Print(v) => printed.push(v),
            Action::Call(m, url, body) => {
                calls += 1;
                let response = endpoint(&m, &url, body.as_deref());
                if let Some(e) = vm.complete(response) {
                    failures.push(e);
                }
            }
            Action::Finished(ok, err) => return (printed, failures, (ok, err), calls),
        }
    }
}

/// A stand-in for a test server: answers 200 with `<METHOD> <url> <body>`.
fn echo(m: &str, url: &str, body: Option<&str>) -> Option<(String, String)> {
    if url.starts_with("http://") {
        Some((format!("{} {} {}", m, url, body.unwrap_or("")), String::from("200")))
    } else {
        None
    }
}

#[test]
fn test_lexer() {
    let mut err = ErrorHandler::new(String::from("lex.goud"));
    let t = lex(
        "id \"string\" 42 = + ? printgetpost\n# a comment\nid 'string' 42=+?print get post\n",
        &mut err,
    );

    assert_eq!(t.len(), 16);
    assert_eq!(t[0].sort, TokenId);
    assert_eq!(t[0].content, String::from("id"));
    assert_eq!(t[1].sort, TokenString);
    assert_eq!(t[1].content, String::from("string"));
    assert_eq!(t[2].sort, TokenNumber);
    assert_eq!(t[2].content, String::from("42"));
    assert_eq!(t[3].sort, TokenEq);
    assert_eq!(t[4].sort, TokenPlus);
    assert_eq!(t[5].sort, TokenQmark);
    assert_eq!(t[6].sort, TokenId);
    assert_eq!(t[6].content, String::from("printgetpost"));
    assert_eq!(t[7].sort, TokenId);
    assert_eq!(t[7].content, String::from("id"));
    assert_eq!(t[8].sort, TokenString);
    assert_eq!(t[8].content, String::from("string"));
    assert_eq!(t[9].sort, TokenNumber);
    assert_eq!(t[9].content, String::from("42"));
    assert_eq!(t[10].sort, TokenEq);
    assert_eq!(t[11].sort, TokenPlus);
    assert_eq!(t[12].sort, TokenQmark);
    assert_eq!(t[13].sort, TokenPrint);
    assert_eq!(t[14].sort, TokenGet);
    assert_eq!(t[15].sort, TokenPost);
}

#[test]
fn test_err_1() {
    let mut err = ErrorHandler::new(String::from("err1.goud"));
    compile("ab = notinit\n\"string\"\nab = ?\nab = \"\"\nab = \"\\q\"\nprint\n", &mut err);

    assert_eq!(err.errors.len(), 7);
    assert_eq!(err.errors[0], WarningEmptyString((4, 6)));
    assert_eq!(err.errors[1], WarningEscapeSeq((5, 8)));
    assert_eq!(
        err.errors[2],
        ErrorNullVar(
            Loc {
                start: (1, 6),
                end: (1, 13)
            },
            String::from("notinit")
        )
    );
    assert_eq!(
        err.errors[3],
        ErrorNoParse((2, 1), String::from("\"string\""))
    );
    assert_eq!(
        err.errors[4],
        ErrorUnxepectedToken(
            Loc {
                start: (3, 6),
                end: (3, 7)
            },
            String::from("a string or a variable"),
            (3, 5)
        )
    );
    assert_eq!(err.errors[5], ErrorNoParse((3, 6), String::from("?")));
    assert_eq!(
        err.errors[6],
        ErrorExpectedToken((6, 6), String::from("a string or a variable"))
    );
}

#[test]
fn upper_case_methods_match_lower_case_ones() {
    let mut err = ErrorHandler::new(String::from("m"));
    let t = lex("GET get POST post PUT put DELETE delete Get body print", &mut err);
    let sorts: Vec<_> = t.iter().map(|t| t.sort.clone()).collect();
    assert_eq!(
        sorts,
        vec![TokenGet, TokenGet, TokenPost, TokenPost, TokenPut, TokenPut, TokenDelete, TokenDelete, TokenId, TokenBody, TokenPrint]
    );
    assert!(err.errors.is_empty());
}

#[test]
fn token_locations_are_ordered() {
    let mut err = ErrorHandler::new(String::from("loc"));
    let t = lex("x = \"two\"\n  print x + 'y'\n", &mut err);
    assert_eq!(t.len(), 7);
    for tok in &t {
        assert!(tok.loc.start.0 >= 1);
        assert!(tok.loc.start <= tok.loc.end);
    }
    assert_eq!(t[0].loc, Loc { start: (1, 1), end: (1, 2) });
    assert_eq!(t[1].loc, Loc { start: (1, 3), end: (1, 4) });
    assert_eq!(t[2].loc, Loc { start: (1, 5), end: (1, 10) });
    assert_eq!(t[2].content, String::from("two"));
    assert_eq!(t[3].loc, Loc { start: (2, 3), end: (2, 8) });
    assert!(err.errors.is_empty());
}

#[test]
fn a_string_ends_at_the_end_of_its_line() {
    let mut err = ErrorHandler::new(String::from("eol"));
    let t = lex("print \"ab\nprint 'c'\n", &mut err);
    assert_eq!(t.len(), 4);
    assert_eq!(t[1].content, String::from("ab"));
    assert_eq!(t[2].sort, TokenPrint);
    assert_eq!(t[3].content, String::from("c"));
    assert_eq!(err.errors, vec![ErrorUnclosedString((1, 7))]);

    let mut err = ErrorHandler::new(String::from("eol2"));
    let t = lex("x = 'ab\\\ny\n", &mut err);
    assert_eq!(t.len(), 4);
    assert_eq!(t[2].content, String::from("ab"));
    assert_eq!(t[3].content, String::from("y"));
    assert_eq!(err.errors, vec![WarningEscapeSeq((1, 8)), ErrorUnclosedString((1, 5))]);
    assert!(err.trigger);
}

#[test]
fn escapes_are_translated() {
    let mut err = ErrorHandler::new(String::from("esc"));
    let t = lex("\"a\\tb\\nc\\\"d\\\\e\"", &mut err);
    assert_eq!(t.len(), 1);
    assert_eq!(t[0].content, String::from("a\tb\nc\"d\\e"));
    assert!(err.errors.is_empty());
    assert!(!err.trigger);
}

#[test]
fn multibyte_text_in_a_string_is_kept() {
    let mut err = ErrorHandler::new(String::from("utf8"));
    let t = lex("'h\u{e9}llo \u{2713}'\n", &mut err);
    assert_eq!(t[0].content, String::from("h\u{e9}llo \u{2713}"));
    assert!(err.errors.is_empty());
}

#[test]
fn unknown_characters_are_skipped() {
    let mut err = ErrorHandler::new(String::from("skip"));
    let t = lex("a ; b , 7 @", &mut err);
    assert_eq!(t.len(), 3);
    assert_eq!(t[2].content, String::from("7"));
    assert!(err.errors.is_empty());
}

#[test]
fn empty_input_is_reported() {
    let mut err = ErrorHandler::new(String::from("empty"));
    let t = lex("# only a comment\n   \n", &mut err);
    assert!(t.is_empty());
    assert_eq!(err.errors, vec![ErrorEmptyFile]);
    assert!(err.trigger);
}

#[test]
fn unclosed_string_is_reported_at_its_quote() {
    let mut err = ErrorHandler::new(String::from("open"));
    let t = lex("print \"abc", &mut err);
    assert_eq!(t.len(), 2);
    assert_eq!(t[1].content, String::from("abc"));
    assert_eq!(err.errors, vec![ErrorUnclosedString((1, 7))]);
    assert!(err.trigger);
}

#[test]
fn a_failed_read_is_reported_with_its_line() {
    let mut err = ErrorHandler::new(String::from("bad"));
    let t = Lexer::new(lines_of("print \"a\"\n"), true, &mut err).get_tokens(&mut err);
    assert_eq!(t.len(), 2);
    assert_eq!(err.errors, vec![ErrorReadline(1)]);
    assert!(err.trigger);
}

#[test]
fn warnings_do_not_set_the_trigger() {
    let mut err = ErrorHandler::new(String::from("w"));
    err.push_warning(WarningEmptyString((1, 1)));
    assert!(!err.trigger);
    err.push(ErrorEmptyFile);
    assert!(err.trigger);
    assert_eq!(err.errors.len(), 2);
    assert_eq!(err.file, String::from("w"));
}

#[test]
fn concatenation_runs_left_to_right() {
    let mut err = ErrorHandler::new(String::from("plus"));
    let prg = compile("print \"a\" + \"b\" + \"c\"\n", &mut err);
    assert!(err.errors.is_empty());
    assert_eq!(
        prg,
        vec![
            Inst::InstPush(String::from("a")),
            Inst::InstPush(String::from("b")),
            Inst::InstPush(String::from("c")),
            Inst::InstPlus,
            Inst::InstPlus,
            Inst::InstPrint
        ]
    );
    let (printed, _, counts, _) = run(&mut Vm::new(prg, false, false, false), echo);
    assert_eq!(printed, vec![String::from("abc")]);
    assert_eq!(counts, (0, 0));
}

#[test]
fn variables_are_bound_and_read() {
    let mut err = ErrorHandler::new(String::from("vars"));
    let prg = compile("x = 'a'\ny = x + 'b'\nx = 'c'\nprint y + x\n", &mut err);
    assert!(err.errors.is_empty());
    let (printed, _, _, _) = run(&mut Vm::new(prg, false, false, false), echo);
    assert_eq!(printed, vec![String::from("abc")]);
}

#[test]
fn undeclared_variable_emits_no_read() {
    let mut err = ErrorHandler::new(String::from("null"));
    let prg = compile("x = y + 'a'\nprint 'b' + y\n", &mut err);
    let nulls = err.errors.iter().filter(|e| matches!(e, ErrorNullVar(_, _))).count();
    assert_eq!(nulls, 2);
    assert!(!prg.iter().any(|i| matches!(i, Inst::InstGain(_))));
    assert_eq!(
        err.errors[0],
        ErrorNullVar(Loc { start: (1, 5), end: (1, 6) }, String::from("y"))
    );
    assert!(err.trigger);
}

#[test]
fn request_without_enough_operands_fails_without_a_call() {
    let prg = vec![
        Inst::InstPush(String::from("http://a")),
        Inst::InstReq(String::from("GET"), false),
        Inst::InstReqandCompare(String::from("GET"), false),
    ];
    let mut vm = Vm::new(prg, true, true, false);
    let (_, failures, counts, calls) = run(&mut vm, echo);
    assert_eq!(calls, 0);
    assert_eq!(counts, (0, 2));
    assert!(failures.is_empty());
    assert!(!vm.must_stop());
}

#[test]
fn blocking_mode_stops_after_a_failure() {
    let prg = vec![Inst::InstReq(String::from("GET"), false)];
    let mut vm = Vm::new(prg, true, true, true);
    assert!(!vm.must_stop());
    assert_eq!(vm.step(), Action::Next);
    assert!(vm.must_stop());
}

#[test]
fn quiet_print_keeps_the_value() {
    let prg = vec![
        Inst::InstPush(String::from("http://u")),
        Inst::InstPush(String::from("200")),
        Inst::InstPrint,
        Inst::InstReq(String::from("GET"), false),
    ];
    let (printed, _, counts, calls) = run(&mut Vm::new(prg.clone(), true, true, false), echo);
    assert!(printed.is_empty());
    assert_eq!((counts, calls), ((1, 0), 1));

    let (printed, _, counts, calls) = run(&mut Vm::new(prg, true, false, false), echo);
    assert_eq!(printed, vec![String::from("200")]);
    assert_eq!((counts, calls), ((0, 1), 0));
}

#[test]
fn print_on_an_empty_stack_does_nothing() {
    let prg = vec![Inst::InstPrint, Inst::InstPlus, Inst::InstLoad(String::from("x"))];
    let (printed, _, counts, _) = run(&mut Vm::new(prg, false, false, false), echo);
    assert!(printed.is_empty());
    assert_eq!(counts, (0, 0));
}

#[test]
fn request_operands_are_handed_out_in_order() {
    let mut err = ErrorHandler::new(String::from("req"));
    let prg = compile("post 'http://h/p' body 'data' 201 ? 'x'\n", &mut err);
    assert!(err.errors.is_empty());
    assert_eq!(prg.last(), Some(&Inst::InstReqandCompare(String::from("POST"), true)));
    let mut vm = Vm::new(prg, false, true, false);
    loop {
        match vm.step() {
            Action::Call(m, url, body) => {
                assert_eq!(m, String::from("POST"));
                assert_eq!(url, String::from("http://h/p"));
                assert_eq!(body, Some(String::from("data")));
                let e = vm.complete(Some((String::from("y"), String::from("201"))));
                assert_eq!(
                    e,
                    Some(RouteError {
                        method: String::from("POST"),
                        url: String::from("http://h/p"),
                        failure: Failure::WrongContent
                    })
                );
            }
            Action::Finished(ok, e) => {
                assert_eq!((ok, e), (0, 1));
                break;
            }
            _ => {}
        }
    }
}

#[test]
fn default_status_is_two_hundred() {
    let mut err = ErrorHandler::new(String::from("d"));
    let prg = compile("get 'http://h'", &mut err);
    assert_eq!(
        prg,
        vec![
            Inst::InstPush(String::from("http://h")),
            Inst::InstPush(String::from("200")),
            Inst::InstReq(String::from("GET"), false)
        ]
    );
}

#[test]
fn status_mismatch_and_no_response_fail() {
    let mut err = ErrorHandler::new(String::from("s"));
    let prg = compile("get 'http://h' 404\nput 'nowhere'\n", &mut err);
    let (_, failures, counts, calls) = run(&mut Vm::new(prg, false, true, false), echo);
    assert_eq!(calls, 2);
    assert_eq!(counts, (0, 2));
    assert_eq!(failures[0].failure, Failure::WrongStatus);
    assert_eq!(failures[1].failure, Failure::Unreachable);
    assert_eq!(failures[1].method, String::from("PUT"));
    assert_eq!(failures[1].url, String::from("nowhere"));
}

#[test]
fn captured_body_is_bound() {
    let mut err = ErrorHandler::new(String::from("c"));
    let prg = compile("delete 'http://h' = r\nprint r\nget 'nowhere' = s\nprint s + '!'\n", &mut err);
    assert!(err.errors.is_empty());
    let (printed, failures, counts, _) = run(&mut Vm::new(prg, true, false, false), echo);
    assert_eq!(printed, vec![String::from("DELETE http://h "), String::from("!")]);
    assert!(failures.is_empty());
    assert_eq!(counts, (1, 1));
}

#[test]
fn seven_routes_pass_against_an_answering_endpoint() {
    let mut err = ErrorHandler::new(String::from("routes"));
    let prg = compile(
        "base = 'http://test'\n\
         get base\n\
         GET base + '/a' 200\n\
         post base body 'x' ? 'POST http://test x'\n\
         put base + '/p' body 'y' = answer\n\
         print answer\n\
         delete base 200\n\
         get base ? 'GET http://test '\n\
         POST base body answer 200 ? 'POST http://test PUT http://test/p y'\n",
        &mut err,
    );
    assert!(err.errors.is_empty());
    let (printed, failures, counts, calls) = run(&mut Vm::new(prg, true, true, false), echo);
    assert!(printed.is_empty());
    assert!(failures.is_empty());
    assert_eq!(calls, 7);
    assert_eq!(counts, (7, 0));
}

#[test]
fn cannot_parse_and_missing_tokens_are_reported() {
    let mut err = ErrorHandler::new(String::from("p"));
    let prg = compile("42 x\nget 'u' =", &mut err);
    assert_eq!(err.errors[0], ErrorNoParse((1, 1), String::from("42")));
    assert_eq!(
        err.errors[1],
        ErrorUnxepectedToken(Loc { start: (2, 1), end: (2, 4) }, String::from("an equal sign"), (1, 5))
    );
    assert_eq!(err.errors[2], ErrorExpectedToken((2, 10), String::from("a variable name")));
    assert_eq!(err.errors.len(), 3);
    assert_eq!(prg.len(), 2);
}

#[test]
fn parse_plus_and_parse_req_stand_alone() {
    let mut err = ErrorHandler::new(String::from("s"));
    let t = lex("get 'u' body 'b'", &mut err);
    let mut p = Parser::new(t);
    p.parse_req("GET", &mut err);
    p.parse_plus(&mut err);
    let prg = p.parse(&mut err);
    assert_eq!(prg.len(), 4);
    assert_eq!(prg[3], Inst::InstReq(String::from("GET"), true));
}

#[test]
fn an_unknown_escape_warns_once() {
    let mut err = ErrorHandler::new(String::from("q"));
    let t = lex("'\\q'\n", &mut err);
    assert_eq!(t.len(), 1);
    assert_eq!(t[0].content, String::from("q"));
    assert_eq!(err.errors, vec![WarningEscapeSeq((1, 3))]);
    assert!(!err.trigger);
}
